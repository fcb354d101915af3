//! The endpoints that devices bring, and their names.
use vstd::prelude::*;
use vstd::string::StringExecFns;
use vstd::utf8::*;
use crate::device::AudioDevice;
use crate::fields::append;
use crate::graph;
use crate::graph::{
    ClockDomain, EndpointDescriptor, EndpointDirection, EndpointId, GraphError, GraphErrorView,
};
use crate::routing::{GraphView, RoutingGraph};
use crate::text;
use crate::text::{alphanumeric, digits_text, joined, text_of};
use crate::textmap::TextMap;

verus! {

/// The lower-case hexadecimal digit for a value below 16.
pub open spec fn hex_char(value: int) -> char {
    if value < 10 {
        ('0' as int + value) as char
    } else {
        ('a' as int + (value - 10)) as char
    }
}

/// What stands for a byte in an endpoint's name: the byte itself where names may hold it, and an
/// underscore with two digits otherwise.
pub open spec fn named_byte(byte: u8) -> Seq<char> {
    if graph::is_identifier_byte(byte) {
        seq![byte as char]
    } else {
        seq!['_', hex_char(byte as int / 16), hex_char(byte as int % 16)]
    }
}

/// What stands for bytes in an endpoint's name.
pub open spec fn named_bytes(bytes: Seq<u8>) -> Seq<char>
    decreases bytes.len(),
{
    if bytes.len() == 0 {
        Seq::empty()
    } else {
        named_bytes(bytes.drop_last()) + named_byte(bytes.last())
    }
}

/// What stands before the direction in the names of a device's endpoints.
pub open spec fn endpoint_prefix(uid: Seq<char>) -> Seq<char> {
    "audio:"@ + named_bytes(encode_utf8(uid)) + ":"@
}

/// The name of the endpoint that a device has in one direction.
pub open spec fn endpoint_name(uid: Seq<char>, direction: Seq<char>) -> Seq<char> {
    endpoint_prefix(uid) + direction
}

/// Every character can be held by a name.
pub open spec fn is_nameable(chars: Seq<char>) -> bool {
    forall|i: int|
        0 <= i < chars.len() ==> '\0' <= #[trigger] chars[i] <= '\u{7f}' && graph::is_identifier_byte(
            chars[i] as u8,
        )
}

proof fn lemma_nameable_concat(left: Seq<char>, right: Seq<char>)
    requires
        is_nameable(left),
        is_nameable(right),
    ensures
        is_nameable(left + right),
        text::ascii(left + right) == text::ascii(left) + text::ascii(right),
{
    assert forall|i: int| 0 <= i < (left + right).len() implies '\0' <= #[trigger] (left + right)[i]
        <= '\u{7f}' && graph::is_identifier_byte((left + right)[i] as u8) by {
        if i < left.len() {
            assert(left[i] <= '\u{7f}');
        } else {
            assert(right[i - left.len()] <= '\u{7f}');
        }
    }
    assert(text::ascii(left + right) =~= text::ascii(left) + text::ascii(right));
}

proof fn lemma_named_byte(byte: u8)
    ensures
        is_nameable(named_byte(byte)),
{
    let high = byte as int / 16;
    let low = byte as int % 16;
    assert(0 <= high < 16 && 0 <= low < 16);
    assert forall|value: int| 0 <= value < 16 implies '\0' <= #[trigger] hex_char(value) <= '\u{7f}'
        && graph::is_identifier_byte(hex_char(value) as u8) by {}
    if graph::is_identifier_byte(byte) {
        assert(named_byte(byte)[0] as u8 == byte);
    } else {
        assert(hex_char(high) <= '\u{7f}');
        assert(hex_char(low) <= '\u{7f}');
    }
}

proof fn lemma_named_bytes(bytes: Seq<u8>)
    ensures
        is_nameable(named_bytes(bytes)),
    decreases bytes.len(),
{
    if bytes.len() > 0 {
        lemma_named_bytes(bytes.drop_last());
        lemma_named_byte(bytes.last());
        lemma_nameable_concat(named_bytes(bytes.drop_last()), named_byte(bytes.last()));
    }
}

/// Nameable characters are ASCII, and are a name where they are not too few or too many.
proof fn lemma_nameable(chars: Seq<char>)
    requires
        is_nameable(chars),
    ensures
        encode_utf8(chars) == text::ascii(chars),
        graph::is_identifier(chars) == (1 <= chars.len() <= 255),
{
    assert(is_ascii_chars(chars)) by {
        assert forall|i: int| 0 <= i < chars.len() implies '\0' <= #[trigger] chars[i]
            <= '\u{7f}' by {
            assert(chars[i] <= '\u{7f}');
        }
    }
    text::lemma_ascii(chars);
    assert forall|i: int| 0 <= i < chars.len() implies graph::is_identifier_byte(
        #[trigger] encode_utf8(chars)[i],
    ) by {
        assert(chars[i] <= '\u{7f}');
    }
}

/// An endpoint's name holds only what names may hold, whatever the device is called. It is a name
/// unless it is too long.
pub proof fn endpoint_names_are_names(uid: Seq<char>, direction: Seq<char>)
    requires
        direction == "input"@ || direction == "output"@,
    ensures
        graph::is_identifier(endpoint_name(uid, direction)) == (endpoint_name(
            uid,
            direction,
        ).len() <= 255),
{
    reveal_strlit("audio:");
    reveal_strlit("input");
    reveal_strlit("output");
    lemma_endpoint_prefix(uid);
    lemma_nameable_concat(endpoint_prefix(uid), direction);
    lemma_nameable(endpoint_name(uid, direction));
}

/// What stands before the direction in an endpoint's name can be held by a name.
proof fn lemma_endpoint_prefix(uid: Seq<char>)
    ensures
        is_nameable(endpoint_prefix(uid)),
        is_nameable("audio:"@),
        is_nameable(":"@),
        text::ascii(endpoint_prefix(uid)) == text::ascii("audio:"@) + text::ascii(
            named_bytes(encode_utf8(uid)),
        ) + text::ascii(":"@),
{
    reveal_strlit("audio:");
    reveal_strlit(":");
    let middle = named_bytes(encode_utf8(uid));
    lemma_named_bytes(encode_utf8(uid));
    lemma_nameable_concat("audio:"@, middle);
    lemma_nameable_concat("audio:"@ + middle, ":"@);
}

/// The lower-case hexadecimal digit for a value below 16.
fn hex_byte(value: u8) -> (digit: u8)
    requires
        value < 16,
    ensures
        digit == hex_char(value as int) as u8,
{
    if value < 10 {
        0x30 + value
    } else {
        0x61 + (value - 10)
    }
}

/// The name of the endpoint that a device has in one direction.
pub fn endpoint_id(uid: &str, direction: &str) -> (name: String)
    ensures
        name@ == endpoint_name(uid@, direction@),
{
    let bytes = uid.as_bytes();
    let mut name: Vec<u8> = Vec::new();
    proof {
        lemma_endpoint_prefix(uid@);
        lemma_nameable("audio:"@);
        lemma_nameable(":"@);
    }
    append(&mut name, "audio:".as_bytes());
    let ghost prefix = name@;
    let mut i: usize = 0;
    assert(prefix + text::ascii(named_bytes(bytes@.take(0))) =~= prefix);
    while i < bytes.len()
        invariant
            i <= bytes@.len(),
            name@ == prefix + text::ascii(named_bytes(bytes@.take(i as int))),
        decreases bytes.len() - i,
    {
        let byte = bytes[i];
        let ghost before = named_bytes(bytes@.take(i as int));
        proof {
            assert(bytes@.take(i + 1).drop_last() =~= bytes@.take(i as int));
            lemma_named_bytes(bytes@.take(i as int));
            lemma_named_byte(byte);
            lemma_nameable_concat(before, named_byte(byte));
        }
        if alphanumeric(byte) || byte == 0x2e || byte == 0x5f || byte == 0x3a || byte == 0x2d {
            name.push(byte);
        } else {
            name.push(0x5f);
            name.push(hex_byte(byte / 16));
            name.push(hex_byte(byte % 16));
        }
        assert(name@ =~= prefix + (text::ascii(before) + text::ascii(named_byte(byte))));
        i = i + 1;
    }
    assert(bytes@.take(i as int) =~= bytes@);
    append(&mut name, ":".as_bytes());
    proof {
        let chars = endpoint_prefix(uid@);
        lemma_nameable(chars);
        assert(name@ =~= encode_utf8(chars));
        encode_utf8_valid_utf8(chars);
        encode_utf8_decode_utf8(chars);
    }
    joined(text_of(name).as_str(), direction)
}

/// A text that can be the id of a virtual device: 1 to 128 letters, digits, dots, underscores and
/// hyphens.
pub open spec fn is_device_id(id: Seq<char>) -> bool {
    let bytes = encode_utf8(id);
    &&& 1 <= bytes.len() <= 128
    &&& forall|i: int|
        0 <= i < bytes.len() ==> graph::is_identifier_byte(#[trigger] bytes[i]) && bytes[i] != 0x3a
}

/// Tells whether a text can be the id of a virtual device.
pub fn valid_device_id(id: &str) -> (valid: bool)
    ensures
        valid == is_device_id(id@),
{
    let bytes = id.as_bytes();
    if bytes.len() == 0 || bytes.len() > 128 {
        return false;
    }
    let mut i: usize = 0;
    while i < bytes.len()
        invariant
            i <= bytes@.len(),
            bytes@ == encode_utf8(id@),
            forall|k: int|
                0 <= k < i ==> graph::is_identifier_byte(#[trigger] bytes@[k]) && bytes@[k] != 0x3a,
        decreases bytes.len() - i,
    {
        let byte = bytes[i];
        if !(alphanumeric(byte) || byte == 0x2e || byte == 0x5f || byte == 0x2d) {
            assert(!graph::is_identifier_byte(bytes@[i as int]) || bytes@[i as int] == 0x3a);
            return false;
        }
        i = i + 1;
    }
    true
}

/// One direction of a device.
pub struct Side {
    pub device: AudioDevice,
    pub direction: EndpointDirection,
}

impl Side {
    /// The word for the direction, as seen from the device.
    pub open spec fn word(self) -> Seq<char> {
        match self.direction {
            EndpointDirection::Source => "input"@,
            EndpointDirection::Sink => "output"@,
        }
    }

    /// The number of channels in the direction.
    pub open spec fn channels(self) -> u32 {
        match self.direction {
            EndpointDirection::Source => self.device.input_channels,
            EndpointDirection::Sink => self.device.output_channels,
        }
    }

    /// The name of the endpoint.
    pub open spec fn name(self) -> Seq<char> {
        endpoint_name(self.device.uid@, self.word())
    }

    /// The endpoint is that of the side.
    pub open spec fn is_endpoint(self, endpoint: EndpointDescriptor) -> bool {
        &&& endpoint.id@ == self.name()
        &&& endpoint.node@ == self.device.uid@
        &&& endpoint.direction == self.direction
        &&& endpoint.channels == self.channels()
        &&& endpoint.sample_rate == self.device.sample_rate
        &&& endpoint.clock_domain@ == clock_name(self.device.object_id)
        &&& endpoint.is_loopback == self.device.is_virtual
    }

    /// What is wrong with the side by itself.
    pub open spec fn defect(self) -> Option<GraphErrorView> {
        if !graph::is_identifier(self.name()) {
            Some(GraphErrorView::InvalidIdentifier(self.name()))
        } else if self.device.sample_rate < 8_000 || self.device.sample_rate > 768_000 {
            Some(GraphErrorView::InvalidSampleRate(self.device.sample_rate))
        } else if !graph::is_short(self.device.uid@) {
            Some(GraphErrorView::InvalidIdentifier(self.device.uid@))
        } else {
            None
        }
    }
}

/// The name of the clock that a device runs by.
pub open spec fn clock_name(object_id: u32) -> Seq<char> {
    "coreaudio:"@ + text::digits(object_id as nat)
}

/// The directions in which a device has channels.
pub open spec fn sides_of(device: AudioDevice) -> Seq<Side> {
    (if device.input_channels > 0 {
        seq![Side { device, direction: EndpointDirection::Source }]
    } else {
        Seq::empty()
    }) + (if device.output_channels > 0 {
        seq![Side { device, direction: EndpointDirection::Sink }]
    } else {
        Seq::empty()
    })
}

/// The directions in which devices have channels, in order.
pub open spec fn sides(devices: Seq<AudioDevice>) -> Seq<Side>
    decreases devices.len(),
{
    if devices.len() == 0 {
        Seq::empty()
    } else {
        sides(devices.drop_last()) + sides_of(devices.last())
    }
}

/// Some of the first `n` sides has the name.
pub open spec fn has_side(sides: Seq<Side>, n: int, name: Seq<char>) -> bool {
    exists|i: int| 0 <= i < n && (#[trigger] sides[i]).name() == name
}

/// Why the endpoint of side `i` cannot be added behind those of the sides before it.
pub open spec fn side_error(sides: Seq<Side>, i: int) -> Option<GraphErrorView> {
    match sides[i].defect() {
        Some(error) => Some(error),
        None => if has_side(sides, i, sides[i].name()) {
            Some(GraphErrorView::EndpointExists(sides[i].name()))
        } else {
            None
        },
    }
}

/// The graph holds the endpoints of the first `n` sides and nothing else, and each of them is found
/// with its device.
pub open spec fn holds_sides(
    graph: GraphView,
    devices: Map<Seq<char>, AudioDevice>,
    sides: Seq<Side>,
    n: int,
) -> bool {
    &&& graph.routes == Map::<Seq<char>, crate::graph::Route>::empty()
    &&& forall|name: Seq<char>| #[trigger]
        graph.endpoints.contains_key(name) == has_side(sides, n, name)
    &&& forall|name: Seq<char>| #[trigger]
        devices.contains_key(name) == has_side(sides, n, name)
    &&& forall|i: int|
        0 <= i < n ==> sides[i].is_endpoint(graph.endpoints[(#[trigger] sides[i]).name()])
            && devices[sides[i].name()] == sides[i].device
}

/// A clock's name is a name.
proof fn lemma_clock_name(object_id: u32)
    ensures
        graph::is_identifier(clock_name(object_id)),
{
    let number = text::digits(object_id as nat);
    text::lemma_digits(object_id as nat);
    reveal_strlit("coreaudio:");
    assert(is_nameable("coreaudio:"@));
    assert forall|i: int| 0 <= i < number.len() implies '\0' <= #[trigger] number[i] <= '\u{7f}'
        && graph::is_identifier_byte(number[i] as u8) by {
        assert(48 <= text::ascii(number)[i] <= 57);
    }
    reveal_with_fuel(text::digits, 11);
    assert(number.len() <= 10);
    lemma_nameable_concat("coreaudio:"@, number);
    lemma_nameable(clock_name(object_id));
}

/// Adds the endpoint of a side, and its device.
fn add_side(
    graph: &mut RoutingGraph,
    devices: &mut TextMap<AudioDevice>,
    device: &AudioDevice,
    direction: EndpointDirection,
    clock: ClockDomain,
    Ghost(sides): Ghost<Seq<Side>>,
    Ghost(n): Ghost<int>,
) -> (result: Result<(), GraphError>)
    requires
        0 <= n < sides.len(),
        sides[n] == (Side { device: *device, direction }),
        sides[n].channels() > 0,
        clock@ == clock_name(device.object_id),
        old(graph).wf(),
        old(devices).wf(),
        holds_sides(old(graph)@, old(devices)@, sides, n),
        forall|i: int| 0 <= i < n ==> #[trigger] side_error(sides, i) is None,
    ensures
        final(graph).wf(),
        final(devices).wf(),
        match result {
            Ok(()) => {
                &&& side_error(sides, n) is None
                &&& holds_sides(final(graph)@, final(devices)@, sides, n + 1)
            },
            Err(error) => side_error(sides, n) == Some(error@),
        },
{
    let (word, channels) = match direction {
        EndpointDirection::Source => ("input", device.input_channels),
        EndpointDirection::Sink => ("output", device.output_channels),
    };
    let name = endpoint_id(device.uid.as_str(), word);
    let id = match EndpointId::new(name.clone()) {
        Ok(id) => id,
        Err(error) => {
            return Err(error);
        },
    };
    let endpoint = EndpointDescriptor {
        id,
        node: device.uid.clone(),
        direction,
        channels: channels as usize,
        sample_rate: device.sample_rate,
        clock_domain: clock,
        is_loopback: device.is_virtual,
    };
    let ghost before = graph@;
    let ghost kept = devices@;
    if let Err(error) = graph.add_endpoint(endpoint) {
        return Err(error);
    }
    let _ = devices.insert(name, device.clone());
    proof {
        let here = sides[n].name();
        assert(sides[n].is_endpoint(endpoint));
        assert(!has_side(sides, n, here));
        assert forall|other: Seq<char>| has_side(sides, n + 1, other) == (other == here
            || #[trigger] has_side(sides, n, other)) by {
            if has_side(sides, n + 1, other) && other != here {
                let i = choose|i: int| 0 <= i < n + 1 && (#[trigger] sides[i]).name() == other;
                assert(0 <= i < n);
            }
            if other == here {
                assert(sides[n].name() == other);
            }
        }
        assert forall|name: Seq<char>| #[trigger]
            graph@.endpoints.contains_key(name) == has_side(sides, n + 1, name) by {
            assert(before.endpoints.contains_key(name) == has_side(sides, n, name));
        }
        assert forall|name: Seq<char>| #[trigger]
            devices@.contains_key(name) == has_side(sides, n + 1, name) by {
            assert(kept.contains_key(name) == has_side(sides, n, name));
        }
        assert forall|i: int| 0 <= i < n + 1 implies sides[i].is_endpoint(
            graph@.endpoints[(#[trigger] sides[i]).name()],
        ) && devices@[sides[i].name()] == sides[i].device by {
            if i < n {
                assert(has_side(sides, n, sides[i].name()));
            }
        }
    }
    Ok(())
}

/// The sides of the first devices come first.
proof fn lemma_sides_prefix(devices: Seq<AudioDevice>, n: int)
    requires
        0 <= n <= devices.len(),
    ensures
        sides(devices.take(n)).len() <= sides(devices).len(),
        sides(devices).take(sides(devices.take(n)).len() as int) == sides(devices.take(n)),
    decreases devices.len(),
{
    if n == devices.len() {
        assert(devices.take(n) =~= devices);
        assert(sides(devices).take(sides(devices).len() as int) =~= sides(devices));
    } else {
        let shorter = devices.drop_last();
        assert(shorter.take(n) =~= devices.take(n));
        lemma_sides_prefix(shorter, n);
        let k = sides(devices.take(n)).len() as int;
        assert(sides(devices).take(k) =~= sides(shorter).take(k));
    }
}

/// The graph of the endpoints that devices bring, and the devices by the names of their endpoints.
pub fn collect_endpoints(devices: &Vec<AudioDevice>) -> (result: Result<
    (RoutingGraph, TextMap<AudioDevice>),
    GraphError,
>)
    ensures
        match result {
            Ok((graph, endpoint_devices)) => {
                let sides = sides(devices@);
                &&& graph.wf()
                &&& endpoint_devices.wf()
                &&& forall|i: int| 0 <= i < sides.len() ==> #[trigger] side_error(sides, i) is None
                &&& holds_sides(graph@, endpoint_devices@, sides, sides.len() as int)
            },
            Err(error) => is_first_side_error(sides(devices@), error@),
        },
{
    let ghost all = sides(devices@);
    let mut graph = RoutingGraph::default();
    let mut endpoint_devices: TextMap<AudioDevice> = TextMap::new();
    let mut i: usize = 0;
    let ghost mut n: int = 0;
    assert(devices@.take(0) =~= Seq::<AudioDevice>::empty());
    while i < devices.len()
        invariant
            i <= devices@.len(),
            all == sides(devices@),
            graph.wf(),
            endpoint_devices.wf(),
            n == sides(devices@.take(i as int)).len(),
            0 <= n <= all.len(),
            holds_sides(graph@, endpoint_devices@, all, n),
            forall|k: int| 0 <= k < n ==> #[trigger] side_error(all, k) is None,
        decreases devices.len() - i,
    {
        let device = &devices[i];
        proof {
            lemma_sides_prefix(devices@, i + 1);
            assert(devices@.take(i + 1).drop_last() =~= devices@.take(i as int));
            let here = sides(devices@.take(i + 1));
            assert forall|k: int| 0 <= k < sides_of(*device).len() implies all[n + k]
                == #[trigger] sides_of(*device)[k] by {
                assert(all.take(here.len() as int)[n + k] == here[n + k]);
            }
            lemma_clock_name(device.object_id);
        }
        let clock = match ClockDomain::new(
            joined("coreaudio:", digits_text(device.object_id as u64).as_str()),
        ) {
            Ok(clock) => clock,
            Err(error) => {
                return Err(error);
            },
        };
        if device.input_channels > 0 {
            assert(all[n] == sides_of(*device)[0]);
            if let Err(error) = add_side(
                &mut graph,
                &mut endpoint_devices,
                device,
                EndpointDirection::Source,
                clock.clone(),
                Ghost(all),
                Ghost(n),
            ) {
                return Err(error);
            }
            proof {
                n = n + 1;
            }
        }
        if device.output_channels > 0 {
            assert(all[n] == sides_of(*device).last());
            if let Err(error) = add_side(
                &mut graph,
                &mut endpoint_devices,
                device,
                EndpointDirection::Sink,
                clock,
                Ghost(all),
                Ghost(n),
            ) {
                return Err(error);
            }
            proof {
                n = n + 1;
            }
        }
        i = i + 1;
    }
    assert(devices@.take(i as int) =~= devices@);
    Ok((graph, endpoint_devices))
}

/// `error` is that of the first side whose endpoint cannot be added.
pub open spec fn is_first_side_error(sides: Seq<Side>, error: GraphErrorView) -> bool {
    exists|i: int|
        {
            &&& 0 <= i < sides.len()
            &&& #[trigger] side_error(sides, i) == Some(error)
            &&& forall|j: int| 0 <= j < i ==> #[trigger] side_error(sides, j) is None
        }
}

} // verus!
