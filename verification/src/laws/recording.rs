//! Laws of what a device's callback records.
use vstd::prelude::*;
use vstd::arithmetic::div_mod::*;
use vstd::arithmetic::mul::*;
use crate::buffers;
use crate::buffers::{audio_buffer_list_frames, AudioBuffer};
use crate::float::{Float32, FloatMath};
use crate::incoming::Playing;
use crate::io;
use crate::io::{audio_device_io_proc, Intake, Mixdown, Voice};
use crate::laws::arithmetic;
use crate::laws::callbacks;
use crate::ring::RingBuffer;
use crate::router::{DeviceIo, OutgoingRoute, RouterMetrics};

verus! {

/// The number of frames of `channels` samples for which a queue has room.
pub open spec fn room(capacity: nat, queued: nat, channels: nat) -> int {
    (capacity - queued) / channels as int
}

/// The number of the first `frames` frames that are queued.
pub open spec fn fitting(capacity: nat, queued: nat, channels: nat, frames: int) -> int {
    if frames <= room(capacity, queued, channels) {
        frames
    } else {
        room(capacity, queued, channels)
    }
}

/// The queue holds what it held, and behind it the first `frames` recorded frames, each with the
/// first `channels` channels in their order.
pub open spec fn is_recorded(
    list: Seq<AudioBuffer>,
    channels: nat,
    frames: int,
    before: Seq<Float32>,
    after: Seq<Float32>,
) -> bool {
    &&& after.len() == before.len() + frames * channels
    &&& forall|i: int| 0 <= i < before.len() ==> #[trigger] after[i] == before[i]
    &&& forall|frame: int, channel: int, buffer: int, at: int|
        0 <= frame < frames && 0 <= channel < channels && #[trigger] callbacks::is_place(
            list,
            frame,
            channel,
            buffer,
            at,
        ) ==> after[before.len() + frame * channels + channel] == list[buffer].samples@[at]
}

/// The number of frames that found no room, where the first `m` routes have been offered one frame
/// more than `frames`.
pub open spec fn overrun(
    start: Intake,
    capacities: Seq<nat>,
    routes: Seq<OutgoingRoute>,
    frames: int,
    m: int,
    n: int,
) -> int
    decreases n,
{
    if n <= 0 {
        0
    } else {
        let route = routes[n - 1];
        let offered = if n - 1 < m {
            frames + 1
        } else {
            frames
        };
        overrun(start, capacities, routes, frames, m, n - 1) + offered - fitting(
            capacities[route.ring as int],
            start.queues[route.ring as int].len(),
            route.channels as nat,
            offered,
        )
    }
}

/// The routes have channels that are there and rings of their own, in which what is queued fits.
spec fn is_ready(
    start: Intake,
    capacities: Seq<nat>,
    routes: Seq<OutgoingRoute>,
    list: Seq<AudioBuffer>,
    frames: int,
) -> bool {
    &&& callbacks::is_filled(list, frames)
    &&& !start.stopped
    &&& capacities.len() == start.queues.len()
    &&& forall|k: int|
        0 <= k < routes.len() ==> {
            &&& (#[trigger] routes[k]).ring < start.queues.len()
            &&& 0 < routes[k].channels <= callbacks::channels_before(list, list.len() as int)
            &&& start.queues[routes[k].ring as int].len() <= capacities[routes[k].ring as int]
        }
    &&& forall|i: int, j: int|
        0 <= i < j < routes.len() ==> (#[trigger] routes[i]).ring != (#[trigger] routes[j]).ring
}

/// What has been taken in, once the first `m` routes have been offered one frame more than `frames`.
spec fn is_taken(
    start: Intake,
    capacities: Seq<nat>,
    routes: Seq<OutgoingRoute>,
    list: Seq<AudioBuffer>,
    frames: int,
    m: int,
    after: Intake,
) -> bool {
    &&& !after.stopped
    &&& after.queues.len() == start.queues.len()
    &&& after.metrics == (RouterMetrics { overruns: after.metrics.overruns, ..start.metrics })
    &&& after.metrics.overruns as int == (start.metrics.overruns + overrun(
        start,
        capacities,
        routes,
        frames,
        m,
        routes.len() as int,
    )) % 0x1_0000_0000_0000_0000
    &&& forall|k: int|
        0 <= k < routes.len() ==> is_recorded(
            list,
            (#[trigger] routes[k]).channels as nat,
            fitting(
                capacities[routes[k].ring as int],
                start.queues[routes[k].ring as int].len(),
                routes[k].channels as nat,
                if k < m {
                    frames + 1
                } else {
                    frames
                },
            ),
            start.queues[routes[k].ring as int],
            after.queues[routes[k].ring as int],
        )
    &&& forall|r: int|
        0 <= r < start.queues.len() && (forall|k: int|
            0 <= k < routes.len() ==> (#[trigger] routes[k]).ring != r) ==> #[trigger] after.queues[r]
            == start.queues[r]
}

/// A frame's samples are those of its channels, in order.
proof fn lemma_frame_samples(list: Seq<AudioBuffer>, frames: int, frame: int, n: nat)
    requires
        callbacks::is_filled(list, frames),
        0 <= frame < frames,
        n <= callbacks::channels_before(list, list.len() as int),
    ensures
        io::frame_samples(list, frame, n).len() == n,
        forall|channel: int, buffer: int, at: int|
            0 <= channel < n && #[trigger] callbacks::is_place(list, frame, channel, buffer, at)
                ==> io::frame_samples(list, frame, n)[channel] == list[buffer].samples@[at],
    decreases n,
{
    if n > 0 {
        lemma_frame_samples(list, frames, frame, (n - 1) as nat);
        callbacks::lemma_all_there(list, frames, frame, n - 1);
        callbacks::lemma_found(list, frame, n - 1);
    }
}

/// One more frame for one route.
proof fn lemma_step(
    list: Seq<AudioBuffer>,
    channels: nat,
    taken: int,
    before: Seq<Float32>,
    middle: Seq<Float32>,
    samples: Seq<Float32>,
)
    requires
        0 <= taken,
        is_recorded(list, channels, taken, before, middle),
        samples.len() == channels,
        forall|channel: int, buffer: int, at: int|
            0 <= channel < channels && #[trigger] callbacks::is_place(
                list,
                taken,
                channel,
                buffer,
                at,
            ) ==> samples[channel] == list[buffer].samples@[at],
    ensures
        is_recorded(list, channels, taken + 1, before, middle + samples),
{
    let after = middle + samples;
    lemma_mul_nonnegative(taken, channels as int);
    lemma_mul_is_distributive_add_other_way(channels as int, taken, 1);
    assert forall|frame: int, channel: int, buffer: int, at: int|
        0 <= frame < taken + 1 && 0 <= channel < channels && #[trigger] callbacks::is_place(
            list,
            frame,
            channel,
            buffer,
            at,
        ) implies after[before.len() + frame * channels + channel]
        == list[buffer].samples@[at] by {
        lemma_mul_nonnegative(frame, channels as int);
        if frame < taken {
            lemma_mul_inequality(frame + 1, taken, channels as int);
            lemma_mul_is_distributive_add_other_way(channels as int, frame, 1);
        } else {
            assert(after[middle.len() + channel] == samples[channel]);
        }
    }
}

/// A queue with room for a frame is one with room for more frames than it has taken.
proof fn lemma_room(capacity: nat, queued: nat, channels: nat, frames: int)
    requires
        queued <= capacity,
        channels > 0,
        frames >= 0,
    ensures
        room(capacity, queued, channels) >= 0,
        ({
            let taken = fitting(capacity, queued, channels, frames);
            &&& 0 <= taken <= frames
            &&& queued + taken * channels <= capacity
            &&& (capacity - (queued + taken * channels) < channels) == (frames >= room(
                capacity,
                queued,
                channels,
            ))
        }),
{
    let left = capacity - queued;
    let most = room(capacity, queued, channels);
    lemma_fundamental_div_mod(left, channels as int);
    lemma_mod_bound(left, channels as int);
    lemma_div_nonnegative(left, channels as int);
    lemma_mul_is_commutative(most, channels as int);
    let taken = fitting(capacity, queued, channels, frames);
    lemma_mul_inequality(taken, most, channels as int);
    if frames < most {
        lemma_mul_inequality(taken + 1, most, channels as int);
        lemma_mul_is_distributive_add_other_way(channels as int, taken, 1);
    }
}

/// One quotient is not negative.
proof fn lemma_div_nonnegative(left: int, by: int)
    requires
        left >= 0,
        by > 0,
    ensures
        left / by >= 0,
{
    lemma_div_pos_is_pos(left, by);
}

/// The frames that found no room, where one more route has been offered a frame.
proof fn lemma_overrun(
    start: Intake,
    capacities: Seq<nat>,
    routes: Seq<OutgoingRoute>,
    frames: int,
    m: int,
    n: int,
)
    requires
        0 <= m < routes.len(),
        0 <= n <= routes.len(),
    ensures
        overrun(start, capacities, routes, frames, m + 1, n) == overrun(
            start,
            capacities,
            routes,
            frames,
            m,
            n,
        ) + if m < n {
            let route = routes[m];
            let capacity = capacities[route.ring as int];
            let queued = start.queues[route.ring as int].len();
            1 - fitting(capacity, queued, route.channels as nat, frames + 1) + fitting(
                capacity,
                queued,
                route.channels as nat,
                frames,
            )
        } else {
            0
        },
    decreases n,
{
    if n > 0 {
        lemma_overrun(start, capacities, routes, frames, m, n - 1);
    }
}

/// Once all routes have been offered a frame, they have been offered one more.
proof fn lemma_all_offered(
    start: Intake,
    capacities: Seq<nat>,
    routes: Seq<OutgoingRoute>,
    frames: int,
    n: int,
)
    requires
        0 <= n <= routes.len(),
    ensures
        overrun(start, capacities, routes, frames, routes.len() as int, n) == overrun(
            start,
            capacities,
            routes,
            frames + 1,
            0,
            n,
        ),
    decreases n,
{
    if n > 0 {
        lemma_all_offered(start, capacities, routes, frames, n - 1);
    }
}

/// No frames are offered at first.
proof fn lemma_none_offered(
    start: Intake,
    capacities: Seq<nat>,
    routes: Seq<OutgoingRoute>,
    list: Seq<AudioBuffer>,
    frames: int,
    n: int,
)
    requires
        is_ready(start, capacities, routes, list, frames),
        0 <= n <= routes.len(),
    ensures
        overrun(start, capacities, routes, 0, 0, n) == 0,
    decreases n,
{
    if n > 0 {
        lemma_none_offered(start, capacities, routes, list, frames, n - 1);
        let route = routes[n - 1];
        lemma_room(
            capacities[route.ring as int],
            start.queues[route.ring as int].len(),
            route.channels as nat,
            0,
        );
    }
}

/// One route is offered one frame.
proof fn lemma_offered(
    start: Intake,
    capacities: Seq<nat>,
    routes: Seq<OutgoingRoute>,
    list: Seq<AudioBuffer>,
    frames: int,
    frame: int,
    m: int,
    middle: Intake,
)
    requires
        is_ready(start, capacities, routes, list, frames),
        0 <= frame < frames,
        0 <= m < routes.len(),
        is_taken(start, capacities, routes, list, frame, m, middle),
    ensures
        is_taken(
            start,
            capacities,
            routes,
            list,
            frame,
            m + 1,
            io::take_frame(middle, capacities, routes[m], list, frame),
        ),
{
    let route = routes[m];
    let ring = route.ring as int;
    let capacity = capacities[ring];
    let queued = start.queues[ring].len();
    let channels = route.channels as nat;
    let after = io::take_frame(middle, capacities, route, list, frame);
    let samples = io::frame_samples(list, frame, channels);
    lemma_frame_samples(list, frames, frame, channels);
    lemma_room(capacity, queued, channels, frame);
    lemma_room(capacity, queued, channels, frame + 1);
    lemma_overrun(start, capacities, routes, frame, m, routes.len() as int);
    let taken = fitting(capacity, queued, channels, frame);
    assert(is_recorded(list, channels, taken, start.queues[ring], middle.queues[ring]));
    if frame < room(capacity, queued, channels) {
        assert(taken == frame);
        lemma_step(list, channels, taken, start.queues[ring], middle.queues[ring], samples);
    }
    assert forall|k: int| 0 <= k < routes.len() implies is_recorded(
        list,
        (#[trigger] routes[k]).channels as nat,
        fitting(
            capacities[routes[k].ring as int],
            start.queues[routes[k].ring as int].len(),
            routes[k].channels as nat,
            if k < m + 1 {
                frame + 1
            } else {
                frame
            },
        ),
        start.queues[routes[k].ring as int],
        after.queues[routes[k].ring as int],
    ) by {
        if k < m {
            assert(routes[k].ring != routes[m].ring);
        } else if k > m {
            assert(routes[m].ring != routes[k].ring);
        }
    }
    assert forall|r: int|
        0 <= r < start.queues.len() && (forall|k: int|
            0 <= k < routes.len() ==> (#[trigger] routes[k]).ring != r) implies #[trigger] after.queues[r]
        == start.queues[r] by {
        assert(routes[m].ring != r);
        assert(middle.queues[r] == start.queues[r]);
    }
}

/// The first `m` routes are offered one frame.
proof fn lemma_frame_offered(
    start: Intake,
    capacities: Seq<nat>,
    routes: Seq<OutgoingRoute>,
    list: Seq<AudioBuffer>,
    frames: int,
    frame: int,
    m: nat,
    middle: Intake,
)
    requires
        is_ready(start, capacities, routes, list, frames),
        0 <= frame < frames,
        m <= routes.len(),
        is_taken(start, capacities, routes, list, frame, 0, middle),
    ensures
        is_taken(
            start,
            capacities,
            routes,
            list,
            frame,
            m as int,
            io::take_frame_for(middle, capacities, routes, list, frame, m),
        ),
    decreases m,
{
    if m > 0 {
        lemma_frame_offered(
            start,
            capacities,
            routes,
            list,
            frames,
            frame,
            (m - 1) as nat,
            middle,
        );
        lemma_offered(
            start,
            capacities,
            routes,
            list,
            frames,
            frame,
            m - 1,
            io::take_frame_for(middle, capacities, routes, list, frame, (m - 1) as nat),
        );
    }
}

/// All routes are offered the first `n` frames.
proof fn lemma_frames_offered(
    start: Intake,
    capacities: Seq<nat>,
    routes: Seq<OutgoingRoute>,
    list: Seq<AudioBuffer>,
    frames: int,
    n: nat,
)
    requires
        is_ready(start, capacities, routes, list, frames),
        n <= frames,
    ensures
        is_taken(
            start,
            capacities,
            routes,
            list,
            n as int,
            0,
            io::take_frames(start, capacities, routes, list, n),
        ),
    decreases n,
{
    if n == 0 {
        lemma_none_offered(start, capacities, routes, list, frames, routes.len() as int);
        assert forall|k: int| 0 <= k < routes.len() implies is_recorded(
            list,
            (#[trigger] routes[k]).channels as nat,
            fitting(
                capacities[routes[k].ring as int],
                start.queues[routes[k].ring as int].len(),
                routes[k].channels as nat,
                0,
            ),
            start.queues[routes[k].ring as int],
            start.queues[routes[k].ring as int],
        ) by {
            lemma_room(
                capacities[routes[k].ring as int],
                start.queues[routes[k].ring as int].len(),
                routes[k].channels as nat,
                0,
            );
            assert(0 * routes[k].channels == 0);
        }
    } else {
        lemma_frames_offered(start, capacities, routes, list, frames, (n - 1) as nat);
        let middle = io::take_frames(start, capacities, routes, list, (n - 1) as nat);
        lemma_frame_offered(
            start,
            capacities,
            routes,
            list,
            frames,
            n - 1,
            routes.len(),
            middle,
        );
        lemma_all_offered(start, capacities, routes, n - 1, routes.len() as int);
        let after = io::take_frames(start, capacities, routes, list, n);
        assert(is_taken(
            start,
            capacities,
            routes,
            list,
            n - 1,
            routes.len() as int,
            after,
        ));
        assert forall|k: int| 0 <= k < routes.len() implies is_recorded(
            list,
            (#[trigger] routes[k]).channels as nat,
            fitting(
                capacities[routes[k].ring as int],
                start.queues[routes[k].ring as int].len(),
                routes[k].channels as nat,
                n as int,
            ),
            start.queues[routes[k].ring as int],
            after.queues[routes[k].ring as int],
        ) by {}
    }
}

/// What is recorded is queued for every route that leaves the device: frame by frame, each with the
/// route's channels in their order, for as long as the route's queue has room for a frame. Every
/// frame that finds no room is counted, and nothing else changes.
pub proof fn devices_queue_what_they_record(
    context: &mut DeviceIo,
    rings: &mut Vec<RingBuffer>,
    metrics: &mut RouterMetrics,
    list: Vec<AudioBuffer>,
    stopped: bool,
    frames: usize,
)
    requires
        old(context).wf(old(rings)@.len()),
        call_ensures(DeviceIo::feed_outgoing, (context, rings, metrics, &list), stopped),
        call_ensures(audio_buffer_list_frames, (&list,), Some(frames)),
        callbacks::is_filled(list@, frames as int),
        forall|k: int|
            0 <= k < old(context).outgoing@.len() ==> 0 < (
            #[trigger] old(context).outgoing@[k]).channels <= callbacks::channels_before(
                list@,
                list@.len() as int,
            ),
        forall|r: int|
            0 <= r < old(rings)@.len() ==> (#[trigger] old(rings)@[r])@.len() <= old(
                rings
            )@[r].capacity(),
        forall|i: int, j: int|
            0 <= i < j < old(context).outgoing@.len() ==> (
            #[trigger] old(context).outgoing@[i]).ring != (
            #[trigger] old(context).outgoing@[j]).ring,
    ensures
        !stopped,
        final(context).outgoing@ == old(context).outgoing@,
        final(context).incoming == old(context).incoming,
        final(rings)@.len() == old(rings)@.len(),
        forall|k: int|
            0 <= k < old(context).outgoing@.len() ==> {
                let route = #[trigger] old(context).outgoing@[k];
                let before = old(rings)@[route.ring as int];
                let after = final(rings)@[route.ring as int];
                is_recorded(
                    list@,
                    route.channels as nat,
                    fitting(
                        before.capacity(),
                        before@.len(),
                        route.channels as nat,
                        frames as int,
                    ),
                    before@,
                    after@,
                )
            },
        forall|r: int|
            0 <= r < old(rings)@.len() && (forall|k: int|
                0 <= k < old(context).outgoing@.len() ==> (
                #[trigger] old(context).outgoing@[k]).ring != r) ==> (
            #[trigger] final(rings)@[r])@ == old(rings)@[r]@,
        final(metrics).underruns == old(metrics).underruns,
        final(metrics).format_errors == old(metrics).format_errors,
        final(metrics).overruns as int == (old(metrics).overruns + overrun(
            Intake { queues: io::queues(old(rings)@), metrics: *old(metrics), stopped: false },
            io::capacities(old(rings)@),
            old(context).outgoing@,
            frames as int,
            0,
            old(context).outgoing@.len() as int,
        )) % 0x1_0000_0000_0000_0000,
{
    let start = Intake {
        queues: io::queues(old(rings)@),
        metrics: *old(metrics),
        stopped: false,
    };
    let capacities = io::capacities(old(rings)@);
    let routes = old(context).outgoing@;
    assert forall|k: int| 0 <= k < routes.len() implies {
        &&& (#[trigger] routes[k]).ring < start.queues.len()
        &&& 0 < routes[k].channels <= callbacks::channels_before(list@, list@.len() as int)
        &&& start.queues[routes[k].ring as int].len() <= capacities[routes[k].ring as int]
    } by {
        let ring = routes[k].ring as int;
        assert(old(rings)@[ring]@.len() <= old(rings)@[ring].capacity());
    }
    assert forall|i: int, j: int| 0 <= i < j < routes.len() implies (#[trigger] routes[i]).ring != (
    #[trigger] routes[j]).ring by {
        assert(old(context).outgoing@[i].ring != old(context).outgoing@[j].ring);
    }
    lemma_frames_offered(start, capacities, routes, list@, frames as int, frames as nat);
    let after = io::take_frames(start, capacities, routes, list@, frames as nat);
    assert(after.queues == io::queues(final(rings)@));
    assert forall|k: int| 0 <= k < old(context).outgoing@.len() implies {
        let route = #[trigger] old(context).outgoing@[k];
        let before = old(rings)@[route.ring as int];
        let later = final(rings)@[route.ring as int];
        is_recorded(
            list@,
            route.channels as nat,
            fitting(before.capacity(), before@.len(), route.channels as nat, frames as int),
            before@,
            later@,
        )
    } by {
        let ring = routes[k].ring as int;
        assert(after.queues[ring] == final(rings)@[ring]@);
        assert(start.queues[ring] == old(rings)@[ring]@);
        assert(capacities[ring] == old(rings)@[ring].capacity());
    }
    assert forall|r: int|
        0 <= r < old(rings)@.len() && (forall|k: int|
            0 <= k < old(context).outgoing@.len() ==> (
            #[trigger] old(context).outgoing@[k]).ring != r) implies (
    #[trigger] final(rings)@[r])@ == old(rings)@[r]@ by {
        assert forall|k: int| 0 <= k < routes.len() implies (#[trigger] routes[k]).ring != r by {
            assert(old(context).outgoing@[k].ring != r);
        }
        assert(after.queues[r] == start.queues[r]);
    }
}

/// A callback records first: for a device that no route leaves, or without a recording, nothing is
/// recorded, and otherwise what the device queues by itself. Where a format error ends that, or
/// nothing is to be played, nothing else happens.
pub proof fn callbacks_record_first<M: FloatMath>(
    context: &mut DeviceIo,
    rings: &mut Vec<RingBuffer>,
    metrics: &mut RouterMetrics,
    input: Option<&Vec<AudioBuffer>>,
    output: &mut Option<Vec<AudioBuffer>>,
    fed_context: &mut DeviceIo,
    fed_rings: &mut Vec<RingBuffer>,
    fed_metrics: &mut RouterMetrics,
    stopped: bool,
)
    requires
        call_ensures(
            audio_device_io_proc::<M>,
            (context, rings, metrics, input, output),
            (),
        ),
        input matches Some(list) ==> call_ensures(
            DeviceIo::feed_outgoing,
            (fed_context, fed_rings, fed_metrics, list),
            stopped,
        ),
        *old(fed_context) == *old(context),
        *old(fed_rings) == *old(rings),
        *old(fed_metrics) == *old(metrics),
        old(context).incoming@.len() == 0 || *old(output) is None || input is Some && stopped && old(
            context
        ).outgoing@.len() > 0,
    ensures
        *final(output) == *old(output),
        final(context).incoming@ == old(context).incoming@,
        final(context).outgoing@ == old(context).outgoing@,
        input is Some && old(context).outgoing@.len() > 0 ==> {
            &&& io::queues(final(rings)@) == io::queues(final(fed_rings)@)
            &&& *final(metrics) == *final(fed_metrics)
        },
        input is None || old(context).outgoing@.len() == 0 ==> {
            &&& io::queues(final(rings)@) == io::queues(old(rings)@)
            &&& *final(metrics) == *old(metrics)
        },
{
}

/// A callback plays what is queued once it has recorded: every route that arrives plays its frames
/// in their order, and what is played is the sum of what the routes put out, each by its matrix and
/// times its gain.
pub proof fn callbacks_play_the_sum_of_their_routes<M: FloatMath>(
    context: &mut DeviceIo,
    rings: &mut Vec<RingBuffer>,
    metrics: &mut RouterMetrics,
    input: Option<&Vec<AudioBuffer>>,
    output: &mut Option<Vec<AudioBuffer>>,
    fed_context: &mut DeviceIo,
    fed_rings: &mut Vec<RingBuffer>,
    fed_metrics: &mut RouterMetrics,
    frames: usize,
    read: spec_fn(Float32) -> int,
)
    requires
        old(context).wf(old(rings)@.len()),
        call_ensures(
            audio_device_io_proc::<M>,
            (context, rings, metrics, input, output),
            (),
        ),
        *old(fed_context) == *old(context),
        *old(fed_rings) == *old(rings),
        *old(fed_metrics) == *old(metrics),
        if input is Some && old(context).outgoing@.len() > 0 {
            call_ensures(
                DeviceIo::feed_outgoing,
                (fed_context, fed_rings, fed_metrics, input->0),
                false,
            )
        } else {
            *final(fed_rings) == *old(rings) && *final(fed_metrics) == *old(metrics)
        },
        *old(output) is Some,
        old(context).incoming@.len() > 0,
        call_ensures(audio_buffer_list_frames, (&old(output)->0,), Some(frames)),
        callbacks::is_filled(old(output)->0@, frames as int),
        arithmetic::is_exact::<M>(read),
        read(Float32 { bits: 0 }) == 0,
        forall|k: int|
            0 <= k < old(context).incoming@.len() ==> (
            #[trigger] old(context).incoming@[k]).route@.sink_channels
                <= callbacks::channels_before(old(output)->0@, old(output)->0@.len() as int),
        forall|i: int, j: int|
            0 <= i < j < old(context).incoming@.len() ==> (
            #[trigger] old(context).incoming@[i]).ring != (
            #[trigger] old(context).incoming@[j]).ring,
    ensures
        *final(output) is Some,
        exists|histories: Seq<(Seq<Playing>, Seq<bool>)>|
            {
                &&& histories.len() == old(context).incoming@.len()
                &&& #[trigger] callbacks::are_histories::<M>(
                    histories,
                    frames as int,
                    io::sink_rings(old(context).incoming@),
                    Mixdown {
                        routes: io::sink_views(old(context).incoming@),
                        queues: io::queues(final(fed_rings)@),
                        metrics: *final(fed_metrics),
                        samples: buffers::contents(old(output)->0@),
                        stopped: false,
                    },
                    Mixdown {
                        routes: io::sink_views(final(context).incoming@),
                        queues: io::queues(final(rings)@),
                        metrics: *final(metrics),
                        samples: buffers::contents(final(output)->0@),
                        stopped: false,
                    },
                )
                &&& forall|f: int, c: int, buffer: int, at: int|
                    0 <= f && 0 <= c && #[trigger] callbacks::is_place(
                        old(output)->0@,
                        f,
                        c,
                        buffer,
                        at,
                    ) ==> read(final(output)->0@[buffer].samples@[at]) == callbacks::total(
                        read,
                        histories,
                        f,
                        c,
                    )
            },
        final(metrics).overruns == final(fed_metrics).overruns,
        final(metrics).format_errors == final(fed_metrics).format_errors,
{
    let slots = old(context).incoming@;
    let ends = io::sink_rings(slots);
    let layout = old(output)->0@;
    let before = Mixdown {
        routes: io::sink_views(slots),
        queues: io::queues(final(fed_rings)@),
        metrics: *final(fed_metrics),
        samples: buffers::contents(layout),
        stopped: false,
    };
    assert(io::queues(final(fed_rings)@).len() == old(rings)@.len());
    let after = choose|after: Mixdown|
        {
            &&& #[trigger] io::plays_out::<M>(layout, ends, before, after)
            &&& after.routes == io::sink_views(final(context).incoming@)
            &&& after.queues == io::queues(final(rings)@)
            &&& after.metrics == *final(metrics)
            &&& after.samples == buffers::contents(final(output)->0@)
        };
    let silent = Mixdown { samples: buffers::silenced(before.samples), ..before };
    assert forall|k: int| 0 <= k < ends.len() implies #[trigger] ends[k] < silent.queues.len()
        && silent.routes[k].wf() && silent.routes[k].sink_channels <= callbacks::channels_before(
        layout,
        layout.len() as int,
    ) by {
        assert(slots[k].ring < old(rings)@.len());
    }
    assert forall|i: int, j: int| 0 <= i < j < ends.len() implies #[trigger] ends[i]
        != #[trigger] ends[j] by {
        assert(slots[i].ring != slots[j].ring);
    }
    let histories = callbacks::lemma_routes::<M>(
        read,
        layout,
        frames as nat,
        ends,
        ends.len(),
        silent,
        after,
    );
    let played = Mixdown {
        routes: io::sink_views(final(context).incoming@),
        queues: io::queues(final(rings)@),
        metrics: *final(metrics),
        samples: buffers::contents(final(output)->0@),
        stopped: false,
    };
    assert(callbacks::are_histories::<M>(histories, frames as int, ends, before, played)) by {
        assert forall|k: int| 0 <= k < histories.len() implies {
            let states = (#[trigger] histories[k]).0;
            &&& callbacks::is_history::<M>(states, histories[k].1)
            &&& histories[k].1.len() == frames
            &&& states[0].route == before.routes[k]
            &&& states[0].queued == before.queues[ends[k] as int]
            &&& states[0].underruns == if k == 0 {
                before.metrics.underruns
            } else {
                histories[k - 1].0.last().underruns
            }
            &&& states.last().route == played.routes[k]
            &&& states.last().queued == played.queues[ends[k] as int]
        } by {}
    }
    assert forall|f: int, c: int, buffer: int, at: int|
        0 <= f && 0 <= c && #[trigger] callbacks::is_place(layout, f, c, buffer, at) implies read(
        final(output)->0@[buffer].samples@[at],
    ) == callbacks::total(read, histories, f, c) by {
        lemma_mul_nonnegative(f, layout[buffer].number_channels as int);
        assert(after.samples[buffer] == final(output)->0@[buffer].samples@);
        assert(silent.samples[buffer][at] == Float32 { bits: 0 });
    }
}

/// What was counted as a format error ended the intake, and nothing else did.
proof fn lemma_counted(
    start: Intake,
    capacities: Seq<nat>,
    routes: Seq<OutgoingRoute>,
    list: Seq<AudioBuffer>,
    frame: int,
    m: nat,
    middle: Intake,
)
    requires
        middle.metrics.underruns == start.metrics.underruns,
        middle.metrics.format_errors == if middle.stopped {
            start.metrics.format_errors.wrapping_add(1)
        } else {
            start.metrics.format_errors
        },
    ensures
        ({
            let after = io::take_frame_for(middle, capacities, routes, list, frame, m);
            &&& after.metrics.underruns == start.metrics.underruns
            &&& after.metrics.format_errors == if after.stopped {
                start.metrics.format_errors.wrapping_add(1)
            } else {
                start.metrics.format_errors
            }
        }),
    decreases m,
{
    if m > 0 {
        lemma_counted(start, capacities, routes, list, frame, (m - 1) as nat, middle);
    }
}

proof fn lemma_all_counted(
    start: Intake,
    capacities: Seq<nat>,
    routes: Seq<OutgoingRoute>,
    list: Seq<AudioBuffer>,
    n: nat,
)
    requires
        !start.stopped,
    ensures
        ({
            let after = io::take_frames(start, capacities, routes, list, n);
            &&& after.metrics.underruns == start.metrics.underruns
            &&& after.metrics.format_errors == if after.stopped {
                start.metrics.format_errors.wrapping_add(1)
            } else {
                start.metrics.format_errors
            }
        }),
    decreases n,
{
    if n > 0 {
        lemma_all_counted(start, capacities, routes, list, (n - 1) as nat);
        lemma_counted(
            start,
            capacities,
            routes,
            list,
            n - 1,
            routes.len(),
            io::take_frames(start, capacities, routes, list, (n - 1) as nat),
        );
    }
}

/// A format error is counted exactly where it ends the intake. Where the buffers do not agree on a
/// number of frames, it does so before anything is queued.
pub proof fn recorded_format_errors_are_counted(
    context: &mut DeviceIo,
    rings: &mut Vec<RingBuffer>,
    metrics: &mut RouterMetrics,
    list: Vec<AudioBuffer>,
    stopped: bool,
    frames: Option<usize>,
)
    requires
        call_ensures(DeviceIo::feed_outgoing, (context, rings, metrics, &list), stopped),
        call_ensures(audio_buffer_list_frames, (&list,), frames),
    ensures
        final(metrics).underruns == old(metrics).underruns,
        stopped ==> final(metrics).format_errors == old(metrics).format_errors.wrapping_add(1),
        !stopped ==> final(metrics).format_errors == old(metrics).format_errors,
        frames is None ==> {
            &&& stopped
            &&& final(metrics).overruns == old(metrics).overruns
            &&& io::queues(final(rings)@) == io::queues(old(rings)@)
        },
        final(context).outgoing@ == old(context).outgoing@,
        final(context).incoming == old(context).incoming,
{
    let start = Intake {
        queues: io::queues(old(rings)@),
        metrics: *old(metrics),
        stopped: false,
    };
    if let Some(frames) = frames {
        lemma_all_counted(
            start,
            io::capacities(old(rings)@),
            old(context).outgoing@,
            list@,
            frames as nat,
        );
    }
}

/// The sample at a place.
spec fn sample_at(list: Seq<AudioBuffer>, place: (int, int)) -> Float32 {
    list[place.0].samples@[place.1]
}

/// Only the samples that are there are taken from a frame.
proof fn lemma_present_samples(list: Seq<AudioBuffer>, frame: int, n: nat)
    requires
        0 <= frame,
    ensures
        io::frame_samples(list, frame, n).len() <= n,
        forall|channel: int|
            0 <= channel < io::frame_samples(list, frame, n).len()
                ==> #[trigger] buffers::sample_place(list, frame, channel) is Some,
        forall|channel: int|
            0 <= channel < io::frame_samples(list, frame, n).len() ==> #[trigger] io::frame_samples(
                list,
                frame,
                n,
            )[channel] == sample_at(list, buffers::sample_place(list, frame, channel)->0),
        io::frame_samples(list, frame, n).len() < n ==> buffers::sample_place(
            list,
            frame,
            io::frame_samples(list, frame, n).len() as int,
        ) is None,
    decreases n,
{
    if n > 0 {
        lemma_present_samples(list, frame, (n - 1) as nat);
    }
}

/// The sample of a channel in a frame is there.
pub open spec fn is_there(list: Seq<AudioBuffer>, frame: int, channel: int) -> bool {
    exists|buffer: int, at: int| #[trigger]
        callbacks::is_place(list, frame, channel, buffer, at)
}

/// A route with more channels than a recording has gets those of its first frame that are there, and
/// ends the intake.
pub proof fn missing_channels_end_the_intake(
    context: &mut DeviceIo,
    rings: &mut Vec<RingBuffer>,
    metrics: &mut RouterMetrics,
    list: Vec<AudioBuffer>,
    stopped: bool,
    frames: usize,
    present: int,
)
    requires
        old(context).wf(old(rings)@.len()),
        call_ensures(DeviceIo::feed_outgoing, (context, rings, metrics, &list), stopped),
        call_ensures(audio_buffer_list_frames, (&list,), Some(frames)),
        frames > 0,
        old(context).outgoing@.len() > 0,
        0 <= present < old(context).outgoing@[0].channels,
        old(rings)@[old(context).outgoing@[0].ring as int].capacity() - old(
            rings
        )@[old(context).outgoing@[0].ring as int]@.len() >= old(context).outgoing@[0].channels,
        forall|channel: int| 0 <= channel < present ==> #[trigger] is_there(list@, 0, channel),
        !is_there(list@, 0, present),
    ensures
        stopped,
        final(metrics).overruns == old(metrics).overruns,
        ({
            let before = old(rings)@[old(context).outgoing@[0].ring as int]@;
            let after = final(rings)@[old(context).outgoing@[0].ring as int]@;
            &&& after.len() == before.len() + present
            &&& forall|i: int| 0 <= i < before.len() ==> #[trigger] after[i] == before[i]
            &&& forall|channel: int, buffer: int, at: int|
                0 <= channel < present && #[trigger] callbacks::is_place(
                    list@,
                    0,
                    channel,
                    buffer,
                    at,
                ) ==> after[before.len() + channel] == list@[buffer].samples@[at]
        }),
{
    let start = Intake {
        queues: io::queues(old(rings)@),
        metrics: *old(metrics),
        stopped: false,
    };
    let capacities = io::capacities(old(rings)@);
    let routes = old(context).outgoing@;
    let ring = routes[0].ring as int;
    assert(routes[0].ring < old(rings)@.len());
    let samples = io::frame_samples(list@, 0, routes[0].channels as nat);
    lemma_present_samples(list@, 0, routes[0].channels as nat);
    assert(samples.len() == present) by {
        if samples.len() < present {
            let missing = samples.len() as int;
            callbacks::lemma_found(list@, 0, missing);
            assert(is_there(list@, 0, missing));
            let (buffer, at) = choose|buffer: int, at: int| #[trigger]
                callbacks::is_place(list@, 0, missing, buffer, at);
            assert(callbacks::is_place(list@, 0, missing, buffer, at));
        } else if samples.len() > present {
            callbacks::lemma_found(list@, 0, present);
            let place = buffers::sample_place(list@, 0, present)->0;
            assert(samples[present] == list@[place.0].samples@[place.1]);
            assert(callbacks::is_place(list@, 0, present, place.0, place.1));
        }
    }
    let first = io::take_frame(start, capacities, routes[0], list@, 0);
    assert(first.stopped);
    assert(io::take_frame_for(start, capacities, routes, list@, 0, 0) == start);
    assert(io::take_frame_for(start, capacities, routes, list@, 0, 1) == first);
    lemma_ended(start, capacities, routes, list@, 0, 1, routes.len());
    assert(io::take_frames(start, capacities, routes, list@, 0) == start);
    assert(io::take_frames(start, capacities, routes, list@, 1) == first);
    lemma_all_ended(start, capacities, routes, list@, 1, frames as nat);
    assert(first.queues == io::queues(final(rings)@));
    assert(io::queues(final(rings)@)[ring] == final(rings)@[ring]@);
    assert(start.queues[ring] == old(rings)@[ring]@);
    assert(final(rings)@[ring]@ == start.queues[ring] + samples);
    assert forall|channel: int, buffer: int, at: int|
        0 <= channel < present && #[trigger] callbacks::is_place(
            list@,
            0,
            channel,
            buffer,
            at,
        ) implies final(rings)@[ring]@[start.queues[ring].len() + channel]
        == list@[buffer].samples@[at] by {
        callbacks::lemma_found(list@, 0, channel);
        assert(samples[channel] == list@[buffer].samples@[at]);
    }
}

/// Once ended, the intake changes no more.
proof fn lemma_ended(
    intake: Intake,
    capacities: Seq<nat>,
    routes: Seq<OutgoingRoute>,
    list: Seq<AudioBuffer>,
    frame: int,
    n: nat,
    m: nat,
)
    requires
        n <= m,
        io::take_frame_for(intake, capacities, routes, list, frame, n).stopped,
    ensures
        io::take_frame_for(intake, capacities, routes, list, frame, m) == io::take_frame_for(
            intake,
            capacities,
            routes,
            list,
            frame,
            n,
        ),
    decreases m,
{
    if n < m {
        lemma_ended(intake, capacities, routes, list, frame, n, (m - 1) as nat);
    }
}

proof fn lemma_all_ended(
    intake: Intake,
    capacities: Seq<nat>,
    routes: Seq<OutgoingRoute>,
    list: Seq<AudioBuffer>,
    n: nat,
    m: nat,
)
    requires
        n <= m,
        io::take_frames(intake, capacities, routes, list, n).stopped,
    ensures
        io::take_frames(intake, capacities, routes, list, m) == io::take_frames(
            intake,
            capacities,
            routes,
            list,
            n,
        ),
    decreases m,
{
    if n < m {
        lemma_all_ended(intake, capacities, routes, list, n, (m - 1) as nat);
        lemma_ended(
            io::take_frames(intake, capacities, routes, list, (m - 1) as nat),
            capacities,
            routes,
            list,
            m - 1,
            0,
            routes.len(),
        );
    }
}

/// What was counted as a format error ended the playing, and nothing else did.
proof fn lemma_played_counts<M: FloatMath>(
    layout: Seq<AudioBuffer>,
    n: nat,
    before: Voice,
    after: Voice,
)
    requires
        !before.stopped,
        io::plays_frames::<M>(layout, n, before, after),
    ensures
        after.metrics.overruns == before.metrics.overruns,
        after.metrics.format_errors == if after.stopped {
            before.metrics.format_errors.wrapping_add(1)
        } else {
            before.metrics.format_errors
        },
    decreases n,
{
    if n > 0 {
        let middle = choose|middle: Voice|
            {
                &&& io::plays_frames::<M>(layout, (n - 1) as nat, before, middle)
                &&& #[trigger] io::plays_frame::<M>(layout, n - 1, middle, after)
            };
        lemma_played_counts::<M>(layout, (n - 1) as nat, before, middle);
    }
}

proof fn lemma_routes_counts<M: FloatMath>(
    layout: Seq<AudioBuffer>,
    frames: nat,
    rings: Seq<usize>,
    n: nat,
    before: Mixdown,
    after: Mixdown,
)
    requires
        !before.stopped,
        io::plays_routes::<M>(layout, frames, rings, n, before, after),
    ensures
        after.metrics.overruns == before.metrics.overruns,
        after.metrics.format_errors == if after.stopped {
            before.metrics.format_errors.wrapping_add(1)
        } else {
            before.metrics.format_errors
        },
    decreases n,
{
    if n > 0 {
        let k = n - 1;
        let ring = rings[k] as int;
        let middle = choose|middle: Mixdown|
            {
                &&& io::plays_routes::<M>(layout, frames, rings, (n - 1) as nat, before, middle)
                &&& #[trigger] io::plays_route::<M>(
                    layout,
                    frames,
                    n - 1,
                    rings[n - 1] as int,
                    middle,
                    after,
                )
            };
        lemma_routes_counts::<M>(layout, frames, rings, (n - 1) as nat, before, middle);
        if !middle.stopped {
            let voice = choose|voice: Voice|
                #[trigger] io::plays_frames::<M>(layout, frames, middle.voice(k, ring), voice)
                    && after == middle.with_voice(k, ring, voice);
            lemma_played_counts::<M>(layout, frames, middle.voice(k, ring), voice);
        }
    }
}

/// A format error is counted exactly where it ends the playing. Where the buffers do not agree on a
/// number of frames, it does so before anything is played.
pub proof fn played_format_errors_are_counted<M: FloatMath>(
    context: &mut DeviceIo,
    rings: &mut Vec<RingBuffer>,
    metrics: &mut RouterMetrics,
    list: &mut Vec<AudioBuffer>,
    stopped: bool,
    frames: Option<usize>,
)
    requires
        call_ensures(DeviceIo::play_incoming::<M>, (context, rings, metrics, list), stopped),
        call_ensures(audio_buffer_list_frames, (old(list),), frames),
    ensures
        final(metrics).overruns == old(metrics).overruns,
        stopped ==> final(metrics).format_errors == old(metrics).format_errors.wrapping_add(1),
        !stopped ==> final(metrics).format_errors == old(metrics).format_errors,
        frames is None ==> {
            &&& stopped
            &&& final(metrics).underruns == old(metrics).underruns
            &&& io::queues(final(rings)@) == io::queues(old(rings)@)
            &&& io::sink_views(final(context).incoming@) == io::sink_views(
                old(context).incoming@,
            )
            &&& buffers::contents(final(list)@) == buffers::contents(old(list)@)
        },
{
    let slots = old(context).incoming@;
    let layout = old(list)@;
    let before = io::mixdown(slots, old(rings)@, *old(metrics), layout, false);
    let after = io::mixdown(
        final(context).incoming@,
        final(rings)@,
        *final(metrics),
        final(list)@,
        stopped,
    );
    if let Some(frames) = frames {
        let silent = Mixdown { samples: buffers::silenced(before.samples), ..before };
        let ends = io::sink_rings(slots);
        lemma_routes_counts::<M>(layout, frames as nat, ends, ends.len(), silent, after);
    }
}

} // verus!
