//! Laws of the router.
use vstd::prelude::*;
use vstd::arithmetic::power2::*;
use crate::device::{AudioDevice, AudioRoute, CoreAudioError};
use crate::float::FloatMath;
use crate::graph::EndpointDirection;
use crate::laws::graphs;
use crate::router;
use crate::router::{validate_routes, AudioRouter, DeviceIo};

verus! {

/// The device with an object id: no later one has the same id.
pub open spec fn is_device_with(devices: Seq<AudioDevice>, d: int, object_id: u32) -> bool {
    &&& 0 <= d < devices.len()
    &&& devices[d].object_id == object_id
    &&& forall|e: int| d < e < devices.len() ==> (#[trigger] devices[e]).object_id != object_id
}

/// A route that can be run on the devices: it has channels on both sides, a finite coefficient for
/// each pair of them, a finite gain and rates, and the devices at its ends still have the channels
/// and the rates that it was made for.
pub open spec fn can_run(route: AudioRoute, devices: Seq<AudioDevice>) -> bool {
    &&& route.source_channels > 0
    &&& route.sink_channels > 0
    &&& route.matrix@.len() == route.sink_channels * route.source_channels
    &&& forall|i: int|
        0 <= i < route.matrix@.len() ==> graphs::is_number(#[trigger] route.matrix@[i])
    &&& graphs::is_number(route.gain)
    &&& route.source_sample_rate > 0
    &&& route.sink_sample_rate > 0
    &&& exists|d: int|
        {
            &&& #[trigger] is_device_with(devices, d, route.source_device_id)
            &&& devices[d].input_channels == route.source_channels
            &&& devices[d].sample_rate == route.source_sample_rate
        }
    &&& exists|d: int|
        {
            &&& #[trigger] is_device_with(devices, d, route.sink_device_id)
            &&& devices[d].output_channels == route.sink_channels
            &&& devices[d].sample_rate == route.sink_sample_rate
        }
}

/// The device that is found with an object id.
proof fn lemma_device_with(devices: Seq<AudioDevice>, object_id: u32)
    ensures
        match router::device_with(devices, object_id) {
            Some(device) => exists|d: int|
                #[trigger] is_device_with(devices, d, object_id) && devices[d] == device,
            None => forall|d: int| !#[trigger] is_device_with(devices, d, object_id),
        },
        forall|d: int, e: int| #[trigger]
            is_device_with(devices, d, object_id) && #[trigger] is_device_with(
                devices,
                e,
                object_id,
            ) ==> d == e,
    decreases devices.len(),
{
    if devices.len() > 0 {
        let last = devices.len() - 1;
        let shorter = devices.drop_last();
        if devices[last].object_id == object_id {
            assert(is_device_with(devices, last, object_id));
            assert forall|d: int, e: int| #[trigger]
                is_device_with(devices, d, object_id) && #[trigger] is_device_with(
                    devices,
                    e,
                    object_id,
                ) implies d == e by {
                if d < e {
                    assert(devices[e].object_id != object_id);
                } else if e < d {
                    assert(devices[d].object_id != object_id);
                }
            }
        } else {
            lemma_device_with(shorter, object_id);
            assert forall|d: int| #[trigger]
                is_device_with(shorter, d, object_id) implies is_device_with(
                devices,
                d,
                object_id,
            ) by {
                assert forall|e: int| d < e < devices.len() implies (
                #[trigger] devices[e]).object_id != object_id by {
                    if e < last {
                        assert(shorter[e].object_id != object_id);
                    }
                }
            }
            assert forall|d: int| #[trigger]
                is_device_with(devices, d, object_id) implies is_device_with(
                shorter,
                d,
                object_id,
            ) by {
                assert forall|e: int| d < e < shorter.len() implies (
                #[trigger] shorter[e]).object_id != object_id by {
                    assert(devices[e].object_id != object_id);
                }
            }
            if let Some(device) = router::device_with(shorter, object_id) {
                let d = choose|d: int|
                    #[trigger] is_device_with(shorter, d, object_id) && shorter[d] == device;
                assert(is_device_with(devices, d, object_id) && devices[d] == device);
            }
        }
    }
}

/// A route without faults can be run, and one with a fault cannot.
proof fn lemma_can_run(route: AudioRoute, devices: Seq<AudioDevice>)
    ensures
        router::route_error(route, devices) is None <==> can_run(route, devices),
{
    lemma_device_with(devices, route.source_device_id);
    lemma_device_with(devices, route.sink_device_id);
    graphs::lemma_number(route.gain);
    vstd::arithmetic::mul::lemma_mul_is_commutative(
        route.source_channels as int,
        route.sink_channels as int,
    );
    assert forall|i: int| 0 <= i < route.matrix@.len() implies graphs::is_number(
        #[trigger] route.matrix@[i],
    ) == route.matrix@[i].finite() by {
        graphs::lemma_number(route.matrix@[i]);
    }
    assert(crate::matrix::all_finite(route.matrix@) <==> forall|i: int|
        0 <= i < route.matrix@.len() ==> graphs::is_number(#[trigger] route.matrix@[i])) by {
        if crate::matrix::all_finite(route.matrix@) {
            assert forall|i: int| 0 <= i < route.matrix@.len() implies graphs::is_number(
                #[trigger] route.matrix@[i],
            ) by {
                assert(route.matrix@[i].finite());
            }
        } else {
            let i = choose|i: int|
                0 <= i < route.matrix@.len() && !(#[trigger] route.matrix@[i]).finite();
            assert(!graphs::is_number(route.matrix@[i]));
        }
    }
    if router::route_error(route, devices) is None {
        let source = router::device_with(devices, route.source_device_id)->0;
        let sink = router::device_with(devices, route.sink_device_id)->0;
        let d = choose|d: int|
            #[trigger] is_device_with(devices, d, route.source_device_id) && devices[d] == source;
        let e = choose|e: int|
            #[trigger] is_device_with(devices, e, route.sink_device_id) && devices[e] == sink;
        assert(is_device_with(devices, d, route.source_device_id));
        assert(is_device_with(devices, e, route.sink_device_id));
    }
}

/// Routes without faults can be run, and of routes with a fault one cannot.
proof fn lemma_can_all_run(routes: Seq<AudioRoute>, devices: Seq<AudioDevice>)
    ensures
        match router::routes_error(routes, devices) {
            None => forall|i: int|
                0 <= i < routes.len() ==> can_run(#[trigger] routes[i], devices),
            Some(error) => exists|i: int|
                {
                    &&& 0 <= i < routes.len()
                    &&& !can_run(#[trigger] routes[i], devices)
                    &&& router::route_error(routes[i], devices) == Some(error)
                    &&& forall|j: int| 0 <= j < i ==> can_run(#[trigger] routes[j], devices)
                },
        },
    decreases routes.len(),
{
    if routes.len() > 0 {
        let shorter = routes.drop_last();
        let last = routes.len() - 1;
        lemma_can_all_run(shorter, devices);
        lemma_can_run(routes[last], devices);
        match router::routes_error(shorter, devices) {
            Some(error) => {
                let i = choose|i: int|
                    {
                        &&& 0 <= i < shorter.len()
                        &&& !can_run(#[trigger] shorter[i], devices)
                        &&& router::route_error(shorter[i], devices) == Some(error)
                        &&& forall|j: int| 0 <= j < i ==> can_run(#[trigger] shorter[j], devices)
                    };
                assert(routes[i] == shorter[i]);
                assert forall|j: int| 0 <= j < i implies can_run(#[trigger] routes[j], devices) by {
                    assert(can_run(shorter[j], devices));
                }
            },
            None => {
                assert forall|j: int| 0 <= j < last implies can_run(
                    #[trigger] routes[j],
                    devices,
                ) by {
                    assert(can_run(shorter[j], devices));
                }
            },
        }
    }
}

/// Routes are valid exactly where each of them can be run on the devices.
pub proof fn routes_are_valid_where_they_can_run(
    routes: &[AudioRoute],
    devices: Vec<AudioDevice>,
    result: Result<(), CoreAudioError>,
)
    requires
        call_ensures(validate_routes, (routes, &devices), result),
    ensures
        result is Ok <==> forall|i: int|
            0 <= i < routes@.len() ==> can_run(#[trigger] routes@[i], devices@),
        result matches Err(error) ==> error is InvalidRoute,
{
    lemma_can_all_run(routes@, devices@);
}

/// The end at place `k` of the context of a device fills the ring of a route with its channels.
pub open spec fn fills(contexts: Seq<DeviceIo>, i: int, k: int, index: int, route: AudioRoute) -> bool {
    &&& 0 <= i < contexts.len()
    &&& 0 <= k < contexts[i].outgoing@.len()
    &&& contexts[i].device_id == route.source_device_id
    &&& contexts[i].outgoing@[k].ring == index
    &&& contexts[i].outgoing@[k].channels == route.source_channels
}

/// The end at place `k` of the context of a device plays from the ring of a route: with the route's
/// channels, its matrix and its gain, one source frame after the other by the ratio of the rates.
pub open spec fn drains<M: FloatMath>(
    contexts: Seq<DeviceIo>,
    i: int,
    k: int,
    index: int,
    route: AudioRoute,
) -> bool {
    &&& 0 <= i < contexts.len()
    &&& 0 <= k < contexts[i].incoming@.len()
    &&& contexts[i].device_id == route.sink_device_id
    &&& contexts[i].incoming@[k].ring == index
    &&& contexts[i].incoming@[k].route@.source_channels == route.source_channels
    &&& contexts[i].incoming@[k].route@.sink_channels == route.sink_channels
    &&& contexts[i].incoming@[k].route@.matrix == route.matrix@
    &&& contexts[i].incoming@[k].route@.gain == route.gain
    &&& !contexts[i].incoming@[k].route@.primed
    &&& call_ensures(
        M::rate_ratio,
        (route.source_sample_rate, route.sink_sample_rate),
        contexts[i].incoming@[k].route@.nominal_step,
    )
}

/// A router that is started has, for each of its routes, an empty ring of the smallest power of two
/// of samples that has room for 16384 frames, which the callback of the source device fills and that
/// of the sink device plays from.
pub proof fn routes_run_between_their_devices<M: FloatMath>(
    routes: &[AudioRoute],
    devices: Result<Vec<AudioDevice>, CoreAudioError>,
    started: AudioRouter,
    index: int,
)
    requires
        call_ensures(
            AudioRouter::start::<M>,
            (routes, devices),
            Ok::<AudioRouter, CoreAudioError>(started),
        ),
        0 <= index < routes@.len(),
    ensures
        started.rings@.len() == routes@.len(),
        started.rings@[index]@.len() == 0,
        started.rings@[index].capacity() >= routes@[index].source_channels * 16_384,
        is_pow2(started.rings@[index].capacity() as int),
        forall|power: int| #[trigger]
            is_pow2(power) && routes@[index].source_channels * 16_384 <= power
                ==> started.rings@[index].capacity() <= power,
        started.metrics.underruns == 0,
        started.metrics.overruns == 0,
        started.metrics.format_errors == 0,
        exists|i: int, k: int| #[trigger] fills(started.contexts@, i, k, index, routes@[index]),
        exists|i: int, k: int|
            #[trigger] drains::<M>(started.contexts@, i, k, index, routes@[index]),
{
    let contexts = started.contexts@;
    let route = routes@[index];
    assert(router::is_ring_for(started.rings@[index], route));
    router::rings_have_one_end_on_each_side::<M>(
        contexts,
        routes@,
        EndpointDirection::Source,
        index,
    );
    router::rings_have_one_end_on_each_side::<M>(
        contexts,
        routes@,
        EndpointDirection::Sink,
        index,
    );
    let (i, k) = choose|i: int, k: int|
        #[trigger] router::uses_ring(contexts, EndpointDirection::Source, i, k, index)
            && contexts[i].device_id == route.source_device_id;
    assert(router::is_context::<M>(contexts[i], routes@, routes@));
    assert(router::is_source_end(
        contexts[i].outgoing@[k],
        routes@,
        router::leaving(routes@, contexts[i].device_id)[k],
    ));
    assert(fills(contexts, i, k, index, route));
    let (j, l) = choose|j: int, l: int|
        #[trigger] router::uses_ring(contexts, EndpointDirection::Sink, j, l, index)
            && contexts[j].device_id == route.sink_device_id;
    assert(router::is_context::<M>(contexts[j], routes@, routes@));
    assert(router::is_sink_end::<M>(
        contexts[j].incoming@[l],
        routes@,
        router::arriving(routes@, contexts[j].device_id)[l],
    ));
    assert(drains::<M>(contexts, j, l, index, route));
}

/// No two ends fill the same ring, no two play from the same ring, and no two contexts are those of
/// one device.
pub proof fn ends_have_rings_of_their_own<M: FloatMath>(
    routes: &[AudioRoute],
    devices: Result<Vec<AudioDevice>, CoreAudioError>,
    started: AudioRouter,
    i: int,
    k: int,
    j: int,
    l: int,
)
    requires
        call_ensures(
            AudioRouter::start::<M>,
            (routes, devices),
            Ok::<AudioRouter, CoreAudioError>(started),
        ),
        0 <= i < started.contexts@.len(),
        0 <= j < started.contexts@.len(),
    ensures
        started.contexts@[i].device_id == started.contexts@[j].device_id ==> i == j,
        0 <= k < started.contexts@[i].outgoing@.len() && 0 <= l
            < started.contexts@[j].outgoing@.len() && started.contexts@[i].outgoing@[k].ring
            == started.contexts@[j].outgoing@[l].ring ==> i == j && k == l,
        0 <= k < started.contexts@[i].incoming@.len() && 0 <= l
            < started.contexts@[j].incoming@.len() && started.contexts@[i].incoming@[k].ring
            == started.contexts@[j].incoming@[l].ring ==> i == j && k == l,
        0 <= k < started.contexts@[i].outgoing@.len() ==> started.contexts@[i].outgoing@[k].ring
            < routes@.len(),
        0 <= k < started.contexts@[i].incoming@.len() ==> started.contexts@[i].incoming@[k].ring
            < routes@.len(),
{
    let contexts = started.contexts@;
    assert(contexts[i].wf(routes@.len()));
    if i < j {
        assert(contexts[i].device_id < contexts[j].device_id);
    } else if j < i {
        assert(contexts[j].device_id < contexts[i].device_id);
    }
    if 0 <= k < contexts[i].outgoing@.len() && 0 <= l < contexts[j].outgoing@.len()
        && contexts[i].outgoing@[k].ring == contexts[j].outgoing@[l].ring {
        let index = contexts[i].outgoing@[k].ring as int;
        let end = EndpointDirection::Source;
        router::rings_have_one_end_on_each_side::<M>(contexts, routes@, end, index);
        assert(router::uses_ring(contexts, end, i, k, index));
        assert(router::uses_ring(contexts, end, j, l, index));
    }
    if 0 <= k < contexts[i].incoming@.len() && 0 <= l < contexts[j].incoming@.len()
        && contexts[i].incoming@[k].ring == contexts[j].incoming@[l].ring {
        let index = contexts[i].incoming@[k].ring as int;
        let end = EndpointDirection::Sink;
        router::rings_have_one_end_on_each_side::<M>(contexts, routes@, end, index);
        assert(router::uses_ring(contexts, end, i, k, index));
        assert(router::uses_ring(contexts, end, j, l, index));
    }
}

/// No power of two that is at least so large is a `usize`.
pub open spec fn is_too_large(size: int) -> bool {
    forall|power: int| #[trigger] is_pow2(power) && size <= power ==> usize::MAX < power
}

/// A router is started only where the devices could be listed and all routes can be run on them. It
/// is refused only where that is not so, or where a ring would be too large.
pub proof fn routers_start_where_their_routes_can_run<M: FloatMath>(
    routes: &[AudioRoute],
    devices: Result<Vec<AudioDevice>, CoreAudioError>,
    result: Result<AudioRouter, CoreAudioError>,
)
    requires
        call_ensures(AudioRouter::start::<M>, (routes, devices), result),
    ensures
        match (devices, result) {
            (Ok(listed), Ok(_)) => forall|i: int|
                0 <= i < routes@.len() ==> can_run(#[trigger] routes@[i], listed@),
            (Ok(listed), Err(error)) => error is InvalidRoute && exists|i: int|
                {
                    &&& 0 <= i < routes@.len()
                    &&& !can_run(#[trigger] routes@[i], listed@) || is_too_large(
                        routes@[i].source_channels * 16_384,
                    )
                },
            (Err(failure), Ok(_)) => false,
            (Err(failure), Err(error)) => error == failure,
        },
{
    if let Ok(listed) = devices {
        lemma_can_all_run(routes@, listed@);
        if result is Err && router::routes_error(routes@, listed@) is None {
            let i = choose|i: int|
                0 <= i < routes@.len() && router::is_oversized(#[trigger] routes@[i]);
            assert(can_run(routes@[i], listed@));
        }
    }
}

} // verus!
