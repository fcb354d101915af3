//! The router: which devices take part in which routes.
use vstd::prelude::*;
use vstd::arithmetic::power2::*;
use vstd::string::StringExecFns;
use crate::device;
use crate::device::{AudioDevice, AudioRoute, CoreAudioError, CoreAudioErrorView};
use crate::float::{Float32, Float64, FloatMath};
use crate::graph::EndpointDirection;
use crate::incoming::{IncomingRoute, IncomingView};
use crate::matrix;
use crate::pcm;
use crate::ring;
use crate::ring::{next_power_of_two, spsc_ring_buffer, Consumer, Producer, RingBuffer};
use crate::text;
use crate::text::{digits_text, joined};

verus! {

/// The number of frames that a route's ring is made for.
pub const ROUTE_FRAMES: usize = 16_384;

/// What the router has counted.
#[derive(Clone, Copy, Debug, Default, Eq, PartialEq, Structural)]
pub struct RouterMetrics {
    pub underruns: u64,
    pub overruns: u64,
    pub format_errors: u64,
}

/// The device with an object id; the last one of them where there are several.
pub open spec fn device_with(devices: Seq<AudioDevice>, object_id: u32) -> Option<AudioDevice>
    decreases devices.len(),
{
    if devices.len() == 0 {
        None
    } else if devices.last().object_id == object_id {
        Some(devices.last())
    } else {
        device_with(devices.drop_last(), object_id)
    }
}

/// The device with an object id; the last one of them where there are several.
fn find_device(devices: &Vec<AudioDevice>, object_id: u32) -> (device: Option<&AudioDevice>)
    ensures
        match device {
            Some(device) => device_with(devices@, object_id) == Some(*device),
            None => device_with(devices@, object_id) is None,
        },
{
    let mut left: usize = devices.len();
    assert(devices@.take(left as int) =~= devices@);
    while left > 0
        invariant
            left <= devices@.len(),
            device_with(devices@, object_id) == device_with(devices@.take(left as int), object_id),
        decreases left,
    {
        assert(devices@.take(left as int).drop_last() =~= devices@.take(left - 1));
        if devices[left - 1].object_id == object_id {
            return Some(&devices[left - 1]);
        }
        left = left - 1;
    }
    None
}

/// The error that is reported with a message about a device.
pub open spec fn device_complaint(role: Seq<char>, object_id: u32, complaint: Seq<char>) -> CoreAudioErrorView {
    CoreAudioErrorView::InvalidRoute(role + text::digits(object_id as nat) + complaint)
}

/// What is wrong with a route on the devices.
pub open spec fn route_error(route: AudioRoute, devices: Seq<AudioDevice>) -> Option<
    CoreAudioErrorView,
> {
    let source = device_with(devices, route.source_device_id);
    let sink = device_with(devices, route.sink_device_id);
    if route.source_channels == 0 || route.sink_channels == 0 {
        Some(CoreAudioErrorView::InvalidRoute("channel counts must be greater than zero"@))
    } else if route.matrix@.len() != route.source_channels * route.sink_channels
        || !matrix::all_finite(route.matrix@) {
        Some(CoreAudioErrorView::InvalidRoute("channel matrix dimensions or values are invalid"@))
    } else if !route.gain.finite() || route.source_sample_rate == 0 || route.sink_sample_rate == 0 {
        Some(CoreAudioErrorView::InvalidRoute("gain and sample rates must be finite and nonzero"@))
    } else if source is None {
        Some(device_complaint("source device "@, route.source_device_id, " is unavailable"@))
    } else if sink is None {
        Some(device_complaint("sink device "@, route.sink_device_id, " is unavailable"@))
    } else if source->0.input_channels != route.source_channels || source->0.sample_rate
        != route.source_sample_rate {
        Some(device_complaint("source device "@, route.source_device_id, " format changed"@))
    } else if sink->0.output_channels != route.sink_channels || sink->0.sample_rate
        != route.sink_sample_rate {
        Some(device_complaint("sink device "@, route.sink_device_id, " format changed"@))
    } else {
        None
    }
}

/// What is wrong with the first route that cannot be run on the devices.
pub open spec fn routes_error(routes: Seq<AudioRoute>, devices: Seq<AudioDevice>) -> Option<
    CoreAudioErrorView,
>
    decreases routes.len(),
{
    if routes.len() == 0 {
        None
    } else {
        match routes_error(routes.drop_last(), devices) {
            Some(error) => Some(error),
            None => route_error(routes.last(), devices),
        }
    }
}

/// An error with a message about a device.
fn complain(role: &str, object_id: u32, complaint: &str) -> (error: CoreAudioError)
    ensures
        error@ == device_complaint(role@, object_id, complaint@),
{
    let mut message = joined(role, digits_text(object_id as u64).as_str());
    message.append(complaint);
    CoreAudioError::InvalidRoute(message)
}

/// Tells whether all coefficients are finite.
fn finite_coefficients(coefficients: &Vec<Float32>) -> (yes: bool)
    ensures
        yes == matrix::all_finite(coefficients@),
{
    let mut i: usize = 0;
    while i < coefficients.len()
        invariant
            i <= coefficients@.len(),
            forall|k: int| 0 <= k < i ==> (#[trigger] coefficients@[k]).finite(),
        decreases coefficients.len() - i,
    {
        if !coefficients[i].is_finite() {
            return false;
        }
        i = i + 1;
    }
    true
}

/// Checks one route against the devices.
fn validate_route(route: &AudioRoute, devices: &Vec<AudioDevice>) -> (result: Result<
    (),
    CoreAudioError,
>)
    ensures
        match result {
            Ok(()) => route_error(*route, devices@) is None,
            Err(error) => route_error(*route, devices@) == Some(error@),
        },
{
    if route.source_channels == 0 || route.sink_channels == 0 {
        return Err(
            CoreAudioError::InvalidRoute("channel counts must be greater than zero".to_owned()),
        );
    }
    assert(route.source_channels * route.sink_channels <= u64::MAX) by (nonlinear_arith)
        requires
            route.source_channels <= u32::MAX,
            route.sink_channels <= u32::MAX,
            0 <= route.source_channels,
            0 <= route.sink_channels,
    ;
    let expected: u64 = route.source_channels as u64 * route.sink_channels as u64;
    if route.matrix.len() as u64 != expected || !finite_coefficients(&route.matrix) {
        return Err(
            CoreAudioError::InvalidRoute(
                "channel matrix dimensions or values are invalid".to_owned(),
            ),
        );
    }
    if !route.gain.is_finite() || route.source_sample_rate == 0 || route.sink_sample_rate == 0 {
        return Err(
            CoreAudioError::InvalidRoute(
                "gain and sample rates must be finite and nonzero".to_owned(),
            ),
        );
    }
    let source = match find_device(devices, route.source_device_id) {
        Some(source) => source,
        None => {
            return Err(complain("source device ", route.source_device_id, " is unavailable"));
        },
    };
    let sink = match find_device(devices, route.sink_device_id) {
        Some(sink) => sink,
        None => {
            return Err(complain("sink device ", route.sink_device_id, " is unavailable"));
        },
    };
    if source.input_channels != route.source_channels || source.sample_rate
        != route.source_sample_rate {
        return Err(complain("source device ", route.source_device_id, " format changed"));
    }
    if sink.output_channels != route.sink_channels || sink.sample_rate != route.sink_sample_rate {
        return Err(complain("sink device ", route.sink_device_id, " format changed"));
    }
    Ok(())
}

/// Checks routes against the devices.
pub fn validate_routes(routes: &[AudioRoute], devices: &Vec<AudioDevice>) -> (result: Result<
    (),
    CoreAudioError,
>)
    ensures
        match result {
            Ok(()) => routes_error(routes@, devices@) is None,
            Err(error) => routes_error(routes@, devices@) == Some(error@),
        },
{
    let mut i: usize = 0;
    while i < routes.len()
        invariant
            i <= routes@.len(),
            routes_error(routes@.take(i as int), devices@) is None,
        decreases routes.len() - i,
    {
        proof {
            assert(routes@.take(i + 1).drop_last() =~= routes@.take(i as int));
            lemma_first_error(routes@, devices@, i + 1);
        }
        if let Err(error) = validate_route(&routes[i], devices) {
            return Err(error);
        }
        i = i + 1;
    }
    assert(routes@.take(i as int) =~= routes@);
    Ok(())
}

/// What is wrong with the first routes is wrong with all of them.
proof fn lemma_first_error(routes: Seq<AudioRoute>, devices: Seq<AudioDevice>, n: int)
    requires
        0 <= n <= routes.len(),
    ensures
        routes_error(routes.take(n), devices) is Some ==> routes_error(routes, devices)
            == routes_error(routes.take(n), devices),
        routes_error(routes, devices) is None ==> forall|i: int|
            0 <= i < routes.len() ==> route_error(#[trigger] routes[i], devices) is None,
    decreases routes.len(),
{
    if n < routes.len() {
        lemma_first_error(routes.drop_last(), devices, n);
        assert(routes.drop_last().take(n) =~= routes.take(n));
    } else {
        assert(routes.take(n) =~= routes);
        if routes.len() > 0 {
            lemma_first_error(routes.drop_last(), devices, routes.len() - 1);
        }
    }
    if routes_error(routes, devices) is None && routes.len() > 0 {
        assert forall|i: int| 0 <= i < routes.len() implies route_error(
            #[trigger] routes[i],
            devices,
        ) is None by {
            if i < routes.len() - 1 {
                assert(routes.drop_last()[i] == routes[i]);
            }
        }
    }
}

/// The source end of a route: the ring that the route is queued in.
pub struct OutgoingRoute {
    pub producer: Producer,
    pub ring: usize,
    pub channels: usize,
}

/// The sink end of a route, and the ring that the route is queued in.
pub struct IncomingSlot {
    pub ring: usize,
    pub route: IncomingRoute,
}

/// What the callback of a device works with.
pub struct DeviceIo {
    pub device_id: u32,
    pub outgoing: Vec<OutgoingRoute>,
    pub incoming: Vec<IncomingSlot>,
}

/// Runs routes between devices.
///
/// The route with index `i` is queued in the ring with index `i`.
pub struct AudioRouter {
    pub contexts: Vec<DeviceIo>,
    pub rings: Vec<RingBuffer>,
    pub metrics: RouterMetrics,
}

/// The device at one end of a route.
pub open spec fn device_at(route: AudioRoute, end: EndpointDirection) -> u32 {
    match end {
        EndpointDirection::Source => route.source_device_id,
        EndpointDirection::Sink => route.sink_device_id,
    }
}

/// The routes that have a device at one end, by their indices.
pub open spec fn ends_at(routes: Seq<AudioRoute>, end: EndpointDirection, device_id: u32) -> Seq<int>
    decreases routes.len(),
{
    if routes.len() == 0 {
        Seq::empty()
    } else if device_at(routes.last(), end) == device_id {
        ends_at(routes.drop_last(), end, device_id).push(routes.len() - 1)
    } else {
        ends_at(routes.drop_last(), end, device_id)
    }
}

/// The routes that leave a device, by their indices.
pub open spec fn leaving(routes: Seq<AudioRoute>, device_id: u32) -> Seq<int> {
    ends_at(routes, EndpointDirection::Source, device_id)
}

/// The routes that arrive at a device, by their indices.
pub open spec fn arriving(routes: Seq<AudioRoute>, device_id: u32) -> Seq<int> {
    ends_at(routes, EndpointDirection::Sink, device_id)
}

/// The routes that have a device at one end are listed once each, and in their order.
proof fn lemma_ends(routes: Seq<AudioRoute>, end: EndpointDirection, device_id: u32)
    ensures
        ({
            let indices = ends_at(routes, end, device_id);
            &&& forall|k: int|
                0 <= k < indices.len() ==> 0 <= #[trigger] indices[k] < routes.len() && device_at(
                    routes[indices[k]],
                    end,
                ) == device_id
            &&& forall|k: int, l: int|
                0 <= k < l < indices.len() ==> #[trigger] indices[k] < #[trigger] indices[l]
            &&& forall|index: int|
                0 <= index < routes.len() && device_at(#[trigger] routes[index], end)
                    == device_id ==> indices.contains(index)
        }),
    decreases routes.len(),
{
    if routes.len() > 0 {
        let shorter = routes.drop_last();
        lemma_ends(shorter, end, device_id);
        let before = ends_at(shorter, end, device_id);
        let indices = ends_at(routes, end, device_id);
        assert forall|k: int| 0 <= k < indices.len() implies 0 <= #[trigger] indices[k]
            < routes.len() && device_at(routes[indices[k]], end) == device_id by {
            if k < before.len() {
                assert(indices[k] == before[k]);
                assert(device_at(shorter[before[k]], end) == device_id);
            }
        }
        assert forall|k: int, l: int| 0 <= k < l < indices.len() implies #[trigger] indices[k]
            < #[trigger] indices[l] by {
            assert(indices[k] == before[k]);
            if l < before.len() {
                assert(indices[l] == before[l]);
            }
        }
        assert forall|index: int|
            0 <= index < routes.len() && device_at(#[trigger] routes[index], end)
                == device_id implies indices.contains(index) by {
            if index < shorter.len() {
                assert(device_at(shorter[index], end) == device_id);
                let k = choose|k: int| 0 <= k < before.len() && before[k] == index;
                assert(indices[k] == index);
            } else {
                assert(indices[indices.len() - 1] == index);
            }
        }
    }
}

/// The source end belongs to the route with an index, and pushes to a ring of the size that the
/// route calls for.
pub open spec fn is_source_end(outgoing: OutgoingRoute, routes: Seq<AudioRoute>, index: int) -> bool {
    &&& outgoing.ring == index
    &&& outgoing.channels == routes[index].source_channels
    &&& ring::is_next_pow2(
        routes[index].source_channels * ROUTE_FRAMES,
        outgoing.producer.slots() as int,
    )
}

/// The sink end belongs to the route with an index, and has not played yet.
pub open spec fn is_sink_end<M: FloatMath>(
    incoming: IncomingSlot,
    routes: Seq<AudioRoute>,
    index: int,
) -> bool {
    &&& incoming.ring == index
    &&& exists|step: Float64|
        #[trigger] call_ensures(
            M::rate_ratio,
            (routes[index].source_sample_rate, routes[index].sink_sample_rate),
            step,
        ) && incoming.route@ == IncomingView::fresh(routes[index], step)
}

/// The context has the source ends and the sink ends of the routes of its device, in their order.
pub open spec fn is_context<M: FloatMath>(
    context: DeviceIo,
    sources: Seq<AudioRoute>,
    sinks: Seq<AudioRoute>,
) -> bool {
    let from = leaving(sources, context.device_id);
    let to = arriving(sinks, context.device_id);
    &&& context.outgoing@.len() == from.len()
    &&& context.incoming@.len() == to.len()
    &&& forall|k: int|
        0 <= k < from.len() ==> is_source_end(#[trigger] context.outgoing@[k], sources, from[k])
    &&& forall|k: int|
        0 <= k < to.len() ==> is_sink_end::<M>(#[trigger] context.incoming@[k], sinks, to[k])
}

/// Some route starts or ends at the device.
pub open spec fn takes_part(sources: Seq<AudioRoute>, sinks: Seq<AudioRoute>, device_id: u32) -> bool {
    leaving(sources, device_id).len() > 0 || arriving(sinks, device_id).len() > 0
}

/// There is one context for each device at which a route starts or ends, in the order of the
/// devices' ids.
pub open spec fn is_plan<M: FloatMath>(
    contexts: Seq<DeviceIo>,
    sources: Seq<AudioRoute>,
    sinks: Seq<AudioRoute>,
) -> bool {
    &&& forall|i: int, j: int|
        0 <= i < j < contexts.len() ==> (#[trigger] contexts[i]).device_id < (
        #[trigger] contexts[j]).device_id
    &&& forall|i: int|
        0 <= i < contexts.len() ==> is_context::<M>(#[trigger] contexts[i], sources, sinks)
            && takes_part(sources, sinks, contexts[i].device_id)
    &&& forall|device_id: u32| #[trigger]
        takes_part(sources, sinks, device_id) ==> exists|i: int|
            0 <= i < contexts.len() && (#[trigger] contexts[i]).device_id == device_id
}

/// The place of a device among contexts that are in the order of their ids, or the place where it
/// would stand.
fn place_of(contexts: &Vec<DeviceIo>, device_id: u32) -> (place: usize)
    requires
        forall|i: int, j: int|
            0 <= i < j < contexts@.len() ==> (#[trigger] contexts@[i]).device_id < (
            #[trigger] contexts@[j]).device_id,
    ensures
        place <= contexts@.len(),
        forall|i: int| 0 <= i < place ==> (#[trigger] contexts@[i]).device_id < device_id,
        forall|i: int|
            place <= i < contexts@.len() ==> device_id <= (#[trigger] contexts@[i]).device_id,
{
    let mut place: usize = 0;
    while place < contexts.len() && contexts[place].device_id < device_id
        invariant
            place <= contexts@.len(),
            forall|i: int| 0 <= i < place ==> (#[trigger] contexts@[i]).device_id < device_id,
        decreases contexts.len() - place,
    {
        place = place + 1;
    }
    place
}

/// Makes a context for a device, unless there is one. The context is found at the place that is
/// returned.
fn context_for<M: FloatMath>(
    contexts: &mut Vec<DeviceIo>,
    device_id: u32,
    Ghost(sources): Ghost<Seq<AudioRoute>>,
    Ghost(sinks): Ghost<Seq<AudioRoute>>,
) -> (place: usize)
    requires
        is_plan::<M>(old(contexts)@, sources, sinks),
    ensures
        place < final(contexts)@.len(),
        final(contexts)@[place as int].device_id == device_id,
        forall|i: int, j: int|
            0 <= i < j < final(contexts)@.len() ==> (#[trigger] final(contexts)@[i]).device_id < (
            #[trigger] final(contexts)@[j]).device_id,
        forall|i: int|
            0 <= i < final(contexts)@.len() ==> {
                &&& is_context::<M>(#[trigger] final(contexts)@[i], sources, sinks)
                &&& i == place || takes_part(sources, sinks, final(contexts)@[i].device_id)
            },
        forall|other: u32| #[trigger]
            takes_part(sources, sinks, other) ==> exists|i: int|
                0 <= i < final(contexts)@.len() && (#[trigger] final(contexts)@[i]).device_id
                    == other,
{
    let place = place_of(contexts, device_id);
    if place < contexts.len() && contexts[place].device_id == device_id {
        return place;
    }
    let context = DeviceIo { device_id, outgoing: Vec::new(), incoming: Vec::new() };
    proof {
        if takes_part(sources, sinks, device_id) {
            let i = choose|i: int|
                0 <= i < contexts@.len() && (#[trigger] contexts@[i]).device_id == device_id;
            assert(false);
        }
    }
    contexts.insert(place, context);
    proof {
        assert(is_context::<M>(context, sources, sinks));
        assert forall|other: u32| #[trigger] takes_part(sources, sinks, other) implies exists|i: int|
            0 <= i < contexts@.len() && (#[trigger] contexts@[i]).device_id == other by {
            let i = choose|i: int|
                0 <= i < old(contexts)@.len() && (#[trigger] old(contexts)@[i]).device_id == other;
            if i < place {
                assert(contexts@[i].device_id == other);
            } else {
                assert(contexts@[i + 1].device_id == other);
            }
        }
    }
    place
}

/// A longer list of routes has the same routes at the same indices.
proof fn lemma_longer(routes: Seq<AudioRoute>, n: int, device_id: u32)
    requires
        0 <= n < routes.len(),
    ensures
        leaving(routes.take(n + 1), device_id) == if routes[n].source_device_id == device_id {
            leaving(routes.take(n), device_id).push(n)
        } else {
            leaving(routes.take(n), device_id)
        },
        arriving(routes.take(n + 1), device_id) == if routes[n].sink_device_id == device_id {
            arriving(routes.take(n), device_id).push(n)
        } else {
            arriving(routes.take(n), device_id)
        },
{
    assert(routes.take(n + 1).drop_last() =~= routes.take(n));
}

/// Adds the source end of the route with index `n`.
fn add_source_end<M: FloatMath>(
    contexts: &mut Vec<DeviceIo>,
    producer: Producer,
    n: usize,
    routes: &[AudioRoute],
)
    requires
        n < routes@.len(),
        ring::is_next_pow2(
            routes@[n as int].source_channels * ROUTE_FRAMES,
            producer.slots() as int,
        ),
        is_plan::<M>(old(contexts)@, routes@.take(n as int), routes@.take(n as int)),
    ensures
        is_plan::<M>(final(contexts)@, routes@.take(n + 1), routes@.take(n as int)),
{
    let device_id = routes[n].source_device_id;
    let ghost before = routes@.take(n as int);
    let ghost longer = routes@.take(n + 1);
    let place = context_for::<M>(contexts, device_id, Ghost(before), Ghost(before));
    let ghost middle = contexts@;
    let outgoing = OutgoingRoute {
        producer,
        ring: n,
        channels: routes[n].source_channels as usize,
    };
    contexts[place].outgoing.push(outgoing);
    proof {
        assert forall|i: int| 0 <= i < contexts@.len() implies is_context::<M>(
            #[trigger] contexts@[i],
            longer,
            before,
        ) && takes_part(longer, before, contexts@[i].device_id) by {
            let id = contexts@[i].device_id;
            assert(is_context::<M>(middle[i], before, before));
            assert(middle[i].device_id == id);
            lemma_longer(routes@, n as int, id);
            lemma_ends(before, EndpointDirection::Source, id);
            let from = leaving(before, id);
            assert(i != place ==> middle[i].device_id != device_id);
            assert forall|k: int| 0 <= k < leaving(longer, id).len() implies is_source_end(
                #[trigger] contexts@[i].outgoing@[k],
                longer,
                leaving(longer, id)[k],
            ) by {
                if k < from.len() {
                    assert(is_source_end(middle[i].outgoing@[k], before, from[k]));
                    assert(before[from[k]] == longer[from[k]]);
                }
            }
            assert forall|k: int| 0 <= k < arriving(before, id).len() implies is_sink_end::<M>(
                #[trigger] contexts@[i].incoming@[k],
                before,
                arriving(before, id)[k],
            ) by {
                assert(is_sink_end::<M>(middle[i].incoming@[k], before, arriving(before, id)[k]));
            }
        }
        assert forall|id: u32| #[trigger] takes_part(longer, before, id) implies exists|i: int|
            0 <= i < contexts@.len() && (#[trigger] contexts@[i]).device_id == id by {
            lemma_longer(routes@, n as int, id);
            if id == device_id {
                assert(contexts@[place as int].device_id == id);
            } else {
                assert(takes_part(before, before, id));
                let i = choose|i: int|
                    0 <= i < middle.len() && (#[trigger] middle[i]).device_id == id;
                assert(contexts@[i].device_id == id);
            }
        }
    }
}

/// Adds the sink end of the route with index `n`.
fn add_sink_end<M: FloatMath>(
    contexts: &mut Vec<DeviceIo>,
    consumer: Consumer,
    n: usize,
    routes: &[AudioRoute],
)
    requires
        n < routes@.len(),
        is_plan::<M>(old(contexts)@, routes@.take(n + 1), routes@.take(n as int)),
    ensures
        is_plan::<M>(final(contexts)@, routes@.take(n + 1), routes@.take(n + 1)),
{
    let device_id = routes[n].sink_device_id;
    let ghost before = routes@.take(n as int);
    let ghost longer = routes@.take(n + 1);
    let place = context_for::<M>(contexts, device_id, Ghost(longer), Ghost(before));
    let ghost middle = contexts@;
    let route = IncomingRoute::new::<M>(consumer, &routes[n]);
    let incoming = IncomingSlot { ring: n, route };
    contexts[place].incoming.push(incoming);
    proof {
        assert(is_sink_end::<M>(incoming, longer, n as int));
        assert forall|i: int| 0 <= i < contexts@.len() implies is_context::<M>(
            #[trigger] contexts@[i],
            longer,
            longer,
        ) && takes_part(longer, longer, contexts@[i].device_id) by {
            let id = contexts@[i].device_id;
            assert(is_context::<M>(middle[i], longer, before));
            assert(middle[i].device_id == id);
            lemma_longer(routes@, n as int, id);
            lemma_ends(before, EndpointDirection::Sink, id);
            let to = arriving(before, id);
            assert(i != place ==> middle[i].device_id != device_id);
            assert forall|k: int| 0 <= k < arriving(longer, id).len() implies is_sink_end::<M>(
                #[trigger] contexts@[i].incoming@[k],
                longer,
                arriving(longer, id)[k],
            ) by {
                if k < to.len() {
                    assert(is_sink_end::<M>(middle[i].incoming@[k], before, to[k]));
                    assert(before[to[k]] == longer[to[k]]);
                }
            }
            assert forall|k: int| 0 <= k < leaving(longer, id).len() implies is_source_end(
                #[trigger] contexts@[i].outgoing@[k],
                longer,
                leaving(longer, id)[k],
            ) by {
                assert(is_source_end(middle[i].outgoing@[k], longer, leaving(longer, id)[k]));
            }
        }
        assert forall|id: u32| #[trigger] takes_part(longer, longer, id) implies exists|i: int|
            0 <= i < contexts@.len() && (#[trigger] contexts@[i]).device_id == id by {
            lemma_longer(routes@, n as int, id);
            if id == device_id {
                assert(contexts@[place as int].device_id == id);
            } else {
                assert(takes_part(longer, before, id));
                let i = choose|i: int|
                    0 <= i < middle.len() && (#[trigger] middle[i]).device_id == id;
                assert(contexts@[i].device_id == id);
            }
        }
    }
}

/// The contexts of routes that can be run are whole.
proof fn lemma_context<M: FloatMath>(
    context: DeviceIo,
    routes: Seq<AudioRoute>,
    devices: Seq<AudioDevice>,
)
    requires
        is_context::<M>(context, routes, routes),
        forall|i: int|
            0 <= i < routes.len() ==> route_error(#[trigger] routes[i], devices) is None,
    ensures
        context.wf(routes.len()),
{
    let id = context.device_id;
    lemma_ends(routes, EndpointDirection::Source, id);
    lemma_ends(routes, EndpointDirection::Sink, id);
    assert forall|k: int| 0 <= k < context.outgoing@.len() implies (
    #[trigger] context.outgoing@[k]).ring < routes.len() by {
        let index = leaving(routes, id)[k];
        assert(is_source_end(context.outgoing@[k], routes, index));
    }
    assert forall|k: int| 0 <= k < context.incoming@.len() implies (
    #[trigger] context.incoming@[k]).ring < routes.len() && context.incoming@[k].route@.wf() by {
        let index = arriving(routes, id)[k];
        assert(is_sink_end::<M>(context.incoming@[k], routes, index));
        assert(route_error(routes[index], devices) is None);
        vstd::arithmetic::mul::lemma_mul_is_commutative(
            routes[index].source_channels as int,
            routes[index].sink_channels as int,
        );
    }
}

/// The rings that the ends of routes at a device use.
pub open spec fn rings_of(context: DeviceIo, end: EndpointDirection) -> Seq<usize> {
    match end {
        EndpointDirection::Source => context.outgoing@.map_values(
            |outgoing: OutgoingRoute| outgoing.ring,
        ),
        EndpointDirection::Sink => context.incoming@.map_values(
            |incoming: IncomingSlot| incoming.ring,
        ),
    }
}

/// The end at place `k` of context `i` uses the ring with an index: a source end fills it, and a
/// sink end drains it.
pub open spec fn uses_ring(
    contexts: Seq<DeviceIo>,
    end: EndpointDirection,
    i: int,
    k: int,
    index: int,
) -> bool {
    &&& 0 <= i < contexts.len()
    &&& 0 <= k < rings_of(contexts[i], end).len()
    &&& rings_of(contexts[i], end)[k] == index
}

/// The ends at a device use the rings of their routes.
proof fn lemma_rings_of<M: FloatMath>(
    context: DeviceIo,
    routes: Seq<AudioRoute>,
    end: EndpointDirection,
)
    requires
        is_context::<M>(context, routes, routes),
    ensures
        ({
            let indices = ends_at(routes, end, context.device_id);
            &&& rings_of(context, end).len() == indices.len()
            &&& forall|k: int|
                0 <= k < indices.len() ==> #[trigger] rings_of(context, end)[k] == indices[k]
        }),
{
    let indices = ends_at(routes, end, context.device_id);
    assert forall|k: int| 0 <= k < indices.len() implies #[trigger] rings_of(context, end)[k]
        == indices[k] by {
        match end {
            EndpointDirection::Source => {
                assert(is_source_end(context.outgoing@[k], routes, indices[k]));
            },
            EndpointDirection::Sink => {
                assert(is_sink_end::<M>(context.incoming@[k], routes, indices[k]));
            },
        }
    }
}

/// Every route's ring is filled by one source end, that of the route's source device, and drained
/// by one sink end, that of its sink device.
pub proof fn rings_have_one_end_on_each_side<M: FloatMath>(
    contexts: Seq<DeviceIo>,
    routes: Seq<AudioRoute>,
    end: EndpointDirection,
    index: int,
)
    requires
        is_plan::<M>(contexts, routes, routes),
        0 <= index < routes.len(),
    ensures
        exists|i: int, k: int|
            #[trigger] uses_ring(contexts, end, i, k, index) && contexts[i].device_id == device_at(
                routes[index],
                end,
            ),
        forall|i: int, k: int, j: int, l: int| #[trigger]
            uses_ring(contexts, end, i, k, index) && #[trigger] uses_ring(
                contexts,
                end,
                j,
                l,
                index,
            ) ==> i == j && k == l,
{
    assert(exists|i: int, k: int|
        #[trigger] uses_ring(contexts, end, i, k, index) && contexts[i].device_id == device_at(
            routes[index],
            end,
        )) by {
        let device_id = device_at(routes[index], end);
        let indices = ends_at(routes, end, device_id);
        lemma_ends(routes, end, device_id);
        let k = choose|k: int| 0 <= k < indices.len() && indices[k] == index;
        assert(takes_part(routes, routes, device_id));
        let i = choose|i: int|
            0 <= i < contexts.len() && (#[trigger] contexts[i]).device_id == device_id;
        lemma_rings_of::<M>(contexts[i], routes, end);
        assert(uses_ring(contexts, end, i, k, index));
    }
    assert forall|i: int, k: int, j: int, l: int| #[trigger]
        uses_ring(contexts, end, i, k, index) && #[trigger] uses_ring(
            contexts,
            end,
            j,
            l,
            index,
        ) implies i == j && k == l by {
        let first = ends_at(routes, end, contexts[i].device_id);
        let second = ends_at(routes, end, contexts[j].device_id);
        lemma_ends(routes, end, contexts[i].device_id);
        lemma_ends(routes, end, contexts[j].device_id);
        lemma_rings_of::<M>(contexts[i], routes, end);
        lemma_rings_of::<M>(contexts[j], routes, end);
        assert(first[k] == index);
        assert(second[l] == index);
        if i < j {
            assert(contexts[i].device_id < contexts[j].device_id);
        } else if j < i {
            assert(contexts[j].device_id < contexts[i].device_id);
        }
        if k < l {
            assert(first[k] < first[l]);
        } else if l < k {
            assert(first[l] < first[k]);
        }
    }
}

/// No ring can be made that holds enough frames of the route.
pub open spec fn is_oversized(route: AudioRoute) -> bool {
    !pcm::has_next_pow2(route.source_channels * ROUTE_FRAMES)
}

/// Why routes cannot be run on the devices.
pub open spec fn start_error(routes: Seq<AudioRoute>, devices: Seq<AudioDevice>) -> Option<
    CoreAudioErrorView,
> {
    match routes_error(routes, devices) {
        Some(error) => Some(error),
        None => if exists|i: int| 0 <= i < routes.len() && is_oversized(#[trigger] routes[i]) {
            Some(CoreAudioErrorView::InvalidRoute("ring-buffer size overflow"@))
        } else {
            None
        },
    }
}

/// The ring is empty and has the size that the route calls for.
pub open spec fn is_ring_for(ring: RingBuffer, route: AudioRoute) -> bool {
    &&& ring@ == Seq::<Float32>::empty()
    &&& ring::is_next_pow2(route.source_channels * ROUTE_FRAMES, ring.capacity() as int)
}

/// Every producer of the context was made for the ring that it pushes to.
pub open spec fn producers_fit(context: DeviceIo, rings: Seq<RingBuffer>) -> bool {
    forall|k: int|
        0 <= k < context.outgoing@.len() ==> (#[trigger] context.outgoing@[k]).producer.slots()
            == rings[context.outgoing@[k].ring as int].capacity()
}

/// Producers that were made for rings of the size that their routes call for fit the rings.
proof fn lemma_producers_fit<M: FloatMath>(
    context: DeviceIo,
    routes: Seq<AudioRoute>,
    rings: Seq<RingBuffer>,
)
    requires
        is_context::<M>(context, routes, routes),
        rings.len() == routes.len(),
        forall|i: int| 0 <= i < routes.len() ==> is_ring_for(#[trigger] rings[i], routes[i]),
    ensures
        producers_fit(context, rings),
{
    let id = context.device_id;
    lemma_ends(routes, EndpointDirection::Source, id);
    assert forall|k: int| 0 <= k < context.outgoing@.len() implies (
    #[trigger] context.outgoing@[k]).producer.slots()
        == rings[context.outgoing@[k].ring as int].capacity() by {
        let index = leaving(routes, id)[k];
        assert(is_source_end(context.outgoing@[k], routes, index));
        assert(is_ring_for(rings[index], routes[index]));
    }
}

impl AudioRouter {
    /// Sets up the rings and the device contexts for routes, on the devices as they were listed.
    pub fn start<M: FloatMath>(
        routes: &[AudioRoute],
        devices: Result<Vec<AudioDevice>, CoreAudioError>,
    ) -> (result: Result<Self, CoreAudioError>)
        ensures
            match result {
                Ok(router) => {
                    &&& devices matches Ok(devices) && start_error(routes@, devices@) is None
                    &&& is_plan::<M>(router.contexts@, routes@, routes@)
                    &&& router.rings@.len() == routes@.len()
                    &&& forall|i: int|
                        0 <= i < routes@.len() ==> is_ring_for(
                            #[trigger] router.rings@[i],
                            routes@[i],
                        )
                    &&& router.metrics == (RouterMetrics {
                        underruns: 0,
                        overruns: 0,
                        format_errors: 0,
                    })
                    &&& forall|i: int|
                        0 <= i < router.contexts@.len() ==> (#[trigger] router.contexts@[i]).wf(
                            router.rings@.len(),
                        ) && producers_fit(router.contexts@[i], router.rings@)
                },
                Err(error) => match devices {
                    Ok(devices) => start_error(routes@, devices@) == Some(error@),
                    Err(failure) => error == failure,
                },
            },
    {
        let listed = match devices {
            Ok(listed) => listed,
            Err(error) => {
                return Err(error);
            },
        };
        if let Err(error) = validate_routes(routes, &listed) {
            return Err(error);
        }
        let mut contexts: Vec<DeviceIo> = Vec::new();
        let mut rings: Vec<RingBuffer> = Vec::new();
        let mut i: usize = 0;
        assert(routes@.take(0) =~= Seq::<AudioRoute>::empty());
        assert forall|id: u32| !#[trigger] takes_part(routes@.take(0), routes@.take(0), id) by {}
        while i < routes.len()
            invariant
                i <= routes@.len(),
                devices == Ok::<Vec<AudioDevice>, CoreAudioError>(listed),
                routes_error(routes@, listed@) is None,
                is_plan::<M>(contexts@, routes@.take(i as int), routes@.take(i as int)),
                rings@.len() == i,
                forall|k: int|
                    0 <= k < i ==> is_ring_for(#[trigger] rings@[k], routes@[k]) && !is_oversized(
                        routes@[k],
                    ),
            decreases routes.len() - i,
        {
            proof {
                lemma_first_error(routes@, listed@, 0);
                assert(route_error(routes@[i as int], listed@) is None);
            }
            let channels: usize = routes[i].source_channels as usize;
            let capacity: Option<usize> = match channels.checked_mul(ROUTE_FRAMES) {
                Some(samples) => next_power_of_two(samples),
                None => None,
            };
            let capacity: usize = match capacity {
                Some(capacity) => capacity,
                None => {
                    assert(is_oversized(routes@[i as int]));
                    return Err(CoreAudioError::InvalidRoute("ring-buffer size overflow".to_owned()));
                },
            };
            proof {
                assert(is_pow2(capacity as int));
                assert(!is_oversized(routes@[i as int]));
            }
            match spsc_ring_buffer(capacity) {
                Ok((producer, consumer, ring)) => {
                    add_source_end::<M>(&mut contexts, producer, i, routes);
                    add_sink_end::<M>(&mut contexts, consumer, i, routes);
                    assert(is_ring_for(ring, routes@[i as int]));
                    rings.push(ring);
                },
                Err(error) => {
                    return Err(CoreAudioError::InvalidRoute(error.text()));
                },
            }
            i = i + 1;
        }
        assert(routes@.take(i as int) =~= routes@);
        assert forall|k: int| 0 <= k < routes@.len() implies !is_oversized(
            #[trigger] routes@[k],
        ) by {
            assert(is_ring_for(rings@[k], routes@[k]));
        }
        let metrics = RouterMetrics { underruns: 0, overruns: 0, format_errors: 0 };
        proof {
            lemma_first_error(routes@, listed@, 0);
            assert forall|k: int| 0 <= k < contexts@.len() implies (#[trigger] contexts@[k]).wf(
                rings@.len(),
            ) && producers_fit(contexts@[k], rings@) by {
                lemma_context::<M>(contexts@[k], routes@, listed@);
                lemma_producers_fit::<M>(contexts@[k], routes@, rings@);
            }
        }
        Ok(AudioRouter { contexts, rings, metrics })
    }

    /// What has been counted so far.
    pub fn metrics(&self) -> (metrics: RouterMetrics)
        ensures
            metrics == self.metrics,
    {
        self.metrics
    }
}

} // verus!
