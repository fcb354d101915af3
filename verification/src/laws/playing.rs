//! Laws of the sink end of a route.
use vstd::prelude::*;
use vstd::arithmetic::div_mod::*;
use vstd::arithmetic::mul::*;
use crate::device::AudioRoute;
use crate::float::{Float32, Float64, FloatMath};
use crate::incoming;
use crate::incoming::{IncomingRoute, IncomingView, Playing};
use crate::laws::arithmetic;
use crate::ring::{Consumer, RingBuffer};

verus! {

/// The samples that a route holds or has queued and not passed yet, the oldest first.
pub open spec fn pending(route: IncomingView, queued: Seq<Float32>) -> Seq<Float32> {
    if route.primed {
        route.current + route.next + queued
    } else {
        queued
    }
}

/// Where a route stands between its two oldest frames.
pub open spec fn position(route: IncomingView) -> Float64 {
    if route.primed {
        route.phase
    } else {
        Float64 { bits: 0 }
    }
}

/// `phases` are the positions that a route comes to in one turn: first that after one step, whose
/// length follows what is queued behind the two frames at hand, then one for each frame passed.
pub open spec fn are_positions<M: FloatMath>(
    route: IncomingView,
    queued: Seq<Float32>,
    phases: Seq<Float64>,
) -> bool {
    &&& arithmetic::descends::<M>(phases)
    &&& exists|correction: Float64|
        {
            &&& call_ensures(
                M::fill_correction,
                (
                    (pending(route, queued).len() as int / route.source_channels as int - 2) as usize,
                    512usize,
                ),
                correction,
            )
            &&& #[trigger] call_ensures(
                M::advance_phase,
                (position(route), route.nominal_step, correction),
                phases[0],
            )
        }
}

/// The positions that crossing whole frames comes to, and what is left then.
pub proof fn lemma_crossing<M: FloatMath>(before: Playing, n: nat, after: Playing) -> (phases: Seq<
    Float64,
>)
    requires
        before.route.wf(),
        before.route.primed,
        incoming::crosses::<M>(before, n, after),
    ensures
        arithmetic::descends::<M>(phases),
        phases[0] == before.route.phase,
        after.route.phase == phases.last(),
        after.route.interpolated == before.route.interpolated,
        after.route.source_channels == before.route.source_channels,
        after.route.sink_channels == before.route.sink_channels,
        after.route.matrix == before.route.matrix,
        after.route.gain == before.route.gain,
        after.route.nominal_step == before.route.nominal_step,
        call_ensures(M::has_whole_frame, (phases.last(),), !after.route.primed),
        ({
            let channels = before.route.source_channels as int;
            let held = before.route.current + before.route.next + before.queued;
            let passed = phases.len() - 1;
            if after.route.primed {
                &&& after.underruns == before.underruns
                &&& passed * channels + 2 * channels <= held.len()
                &&& after.route.current + after.route.next + after.queued == held.skip(
                    passed * channels,
                )
            } else {
                &&& after.underruns == before.underruns.wrapping_add(1)
                &&& passed * channels + 2 * channels <= held.len() < passed * channels + 3 * channels
                &&& after.queued == held.skip(passed * channels + 2 * channels)
            }
        }),
        after.route.wf(),
    decreases n,
{
    let channels = before.route.source_channels as int;
    let held = before.route.current + before.route.next + before.queued;
    assert(0 * channels == 0);
    if n == 0 {
        assert(held.skip(0) =~= held);
        seq![before.route.phase]
    } else if before.queued.len() < before.route.source_channels {
        assert(held.skip(2 * channels) =~= before.queued);
        seq![before.route.phase]
    } else {
        let phase = choose|phase: Float64|
            {
                &&& #[trigger] call_ensures(M::without_whole_frame, (before.route.phase,), phase)
                &&& incoming::crosses::<M>(before.shifted(phase), (n - 1) as nat, after)
            };
        let middle = before.shifted(phase);
        let rest = lemma_crossing::<M>(middle, (n - 1) as nat, after);
        let phases = seq![before.route.phase] + rest;
        let fewer = middle.route.current + middle.route.next + middle.queued;
        assert(fewer =~= held.skip(channels));
        let passed = phases.len() - 1;
        assert(passed - 1 == rest.len() - 1);
        lemma_mul_is_distributive_sub_other_way(channels, passed, 1);
        lemma_mul_nonnegative(passed - 1, channels);
        assert((passed - 1) * channels == passed * channels - channels);
        if after.route.primed {
            assert(fewer.skip((passed - 1) * channels) =~= held.skip(passed * channels));
        } else {
            assert(fewer.skip((passed - 1) * channels + 2 * channels) =~= held.skip(
                passed * channels + 2 * channels,
            ));
        }
        assert forall|k: int| 0 <= k < phases.len() - 1 implies {
            &&& call_ensures(M::has_whole_frame, (#[trigger] phases[k],), true)
            &&& call_ensures(M::without_whole_frame, (phases[k],), phases[k + 1])
        } by {
            if k > 0 {
                assert(phases[k] == rest[k - 1]);
                assert(phases[k + 1] == rest[k - 1 + 1]);
            }
        }
        phases
    }
}

/// A turn keeps a route whole.
pub proof fn lemma_turn<M: FloatMath>(before: Playing, after: Playing, ready: bool)
    requires
        before.route.wf(),
        incoming::turns::<M>(before, after, ready),
    ensures
        after.route.wf(),
        after.route.source_channels == before.route.source_channels,
        after.route.sink_channels == before.route.sink_channels,
        after.route.matrix == before.route.matrix,
        after.route.gain == before.route.gain,
        after.route.nominal_step == before.route.nominal_step,
{
    if ready {
        let channels = before.route.source_channels as int;
        let length = before.queued.len() as int;
        if !before.route.primed {
            lemma_fundamental_div_mod(length, channels);
            lemma_mod_bound(length, channels);
            lemma_mul_inequality(2, length / channels, channels);
            lemma_mul_is_commutative(length / channels, channels);
        }
        let started = before.started();
        let (frame, phase, n) = choose|frame: Seq<Float32>, phase: Float64, n: nat|
            {
                &&& incoming::is_between::<M>(started.route, frame)
                &&& incoming::is_moved_on::<M>(started, phase)
                &&& #[trigger] incoming::crosses::<M>(
                    incoming::with_frame(started, frame, phase),
                    n,
                    after,
                )
            };
        lemma_crossing::<M>(incoming::with_frame(started, frame, phase), n, after);
    }
}

/// A route starts to play once 512 frames are queued, and changes nothing before. A frame that it
/// puts out lies between the two oldest frames that it holds, as far along as its position says.
/// Then its position moves on by a step, and as many frames are passed, from the oldest on, as the
/// new position holds whole ones: what remains holds none. Where there are not enough frames, the
/// route stops, and that is counted as an underrun.
pub proof fn routes_pass_whole_frames<M: FloatMath>(
    route: &mut IncomingRoute,
    ring: &mut RingBuffer,
    underruns: &mut u64,
    ready: bool,
)
    requires
        old(route)@.wf(),
        call_ensures(IncomingRoute::prepare_output_frame::<M>, (route, ring, underruns), ready),
    ensures
        ({
            let before = old(route)@;
            let after = final(route)@;
            let channels = before.source_channels as int;
            let held = pending(before, old(ring)@);
            &&& ready == (before.primed || old(ring)@.len() as int / channels >= 512)
            &&& !ready ==> after == before && final(ring)@ == old(ring)@ && *final(underruns)
                == *old(underruns)
            &&& ready ==> {
                &&& 2 * channels <= held.len()
                &&& after.interpolated.len() == channels
                &&& forall|c: int|
                    0 <= c < channels ==> call_ensures(
                        M::interpolate,
                        (held[c], held[channels + c], position(before)),
                        #[trigger] after.interpolated[c],
                    )
                &&& exists|phases: Seq<Float64>|
                    {
                        let passed = phases.len() - 1;
                        &&& #[trigger] are_positions::<M>(before, old(ring)@, phases)
                        &&& after.phase == phases.last()
                        &&& call_ensures(M::has_whole_frame, (after.phase,), !after.primed)
                        &&& if after.primed {
                            &&& *final(underruns) == *old(underruns)
                            &&& pending(after, final(ring)@) == held.skip(passed * channels)
                        } else {
                            &&& *final(underruns) == old(underruns).wrapping_add(1)
                            &&& held.len() < passed * channels + 3 * channels
                            &&& final(ring)@ == held.skip(passed * channels + 2 * channels)
                        }
                    }
            }
            &&& after.source_channels == before.source_channels
            &&& after.sink_channels == before.sink_channels
            &&& after.matrix == before.matrix
            &&& after.gain == before.gain
            &&& after.nominal_step == before.nominal_step
        }),
{
    let before = old(route).with(*old(ring), *old(underruns));
    let after = final(route).with(*final(ring), *final(underruns));
    let channels = before.route.source_channels as int;
    let held = pending(before.route, before.queued);
    if !before.waits() {
        let length = before.queued.len() as int;
        if !before.route.primed {
            lemma_fundamental_div_mod(length, channels);
            lemma_mod_bound(length, channels);
            lemma_mul_inequality(2, length / channels, channels);
            lemma_mul_is_commutative(length / channels, channels);
        }
        let started = before.started();
        assert(started.route.current + started.route.next + started.queued =~= held);
        assert(started.queued.len() == held.len() - 2 * channels);
        lemma_div_minus(held.len() as int, channels);
        let (frame, phase, n) = choose|frame: Seq<Float32>, phase: Float64, n: nat|
            {
                &&& incoming::is_between::<M>(started.route, frame)
                &&& incoming::is_moved_on::<M>(started, phase)
                &&& #[trigger] incoming::crosses::<M>(
                    incoming::with_frame(started, frame, phase),
                    n,
                    after,
                )
            };
        let phases = lemma_crossing::<M>(incoming::with_frame(started, frame, phase), n, after);
        assert(after.route.interpolated == frame);
        assert forall|c: int| 0 <= c < channels implies call_ensures(
            M::interpolate,
            (held[c], held[channels + c], position(before.route)),
            #[trigger] after.route.interpolated[c],
        ) by {
            assert(held[c] == started.route.current[c]);
            assert(held[channels + c] == started.route.next[c]);
        }
        let correction = choose|correction: Float64|
            {
                &&& call_ensures(
                    M::fill_correction,
                    (started.queued_frames() as usize, incoming::STARTUP_FRAMES),
                    correction,
                )
                &&& #[trigger] call_ensures(
                    M::advance_phase,
                    (started.route.phase, started.route.nominal_step, correction),
                    phase,
                )
            };
        assert(are_positions::<M>(before.route, before.queued, phases));
    }
}

proof fn lemma_div_minus(length: int, channels: int)
    requires
        channels > 0,
        2 * channels <= length,
    ensures
        (length - 2 * channels) / channels == length / channels - 2,
{
    lemma_div_multiples_vanish_fancy_two(length, channels);
}

proof fn lemma_div_multiples_vanish_fancy_two(length: int, channels: int)
    requires
        channels > 0,
    ensures
        (length - 2 * channels) / channels == length / channels - 2,
{
    lemma_hoist_over_denominator(length, -2, channels as nat);
    assert((-2) * channels == -(2 * channels)) by (nonlinear_arith);
}

/// Where positions are read in parts of a frame, a turn passes as many frames as the new position
/// holds whole ones, and leaves the part that is less than one.
pub proof fn routes_keep_the_fraction_of_a_frame<M: FloatMath>(
    route: &mut IncomingRoute,
    ring: &mut RingBuffer,
    underruns: &mut u64,
    ready: bool,
    place: spec_fn(Float64) -> int,
    unit: int,
)
    requires
        old(route)@.wf(),
        call_ensures(IncomingRoute::prepare_output_frame::<M>, (route, ring, underruns), ready),
        arithmetic::is_positional::<M>(place, unit),
    ensures
        ready && final(route)@.primed ==> exists|phases: Seq<Float64>|
            {
                &&& #[trigger] are_positions::<M>(old(route)@, old(ring)@, phases)
                &&& place(final(route)@.phase) < unit
                &&& place(phases[0]) >= 0 ==> {
                    &&& place(final(route)@.phase) == place(phases[0]) % unit
                    &&& pending(final(route)@, final(ring)@) == pending(
                        old(route)@,
                        old(ring)@,
                    ).skip(place(phases[0]) / unit * old(route)@.source_channels)
                }
            },
{
    routes_pass_whole_frames::<M>(route, ring, underruns, ready);
    if ready && final(route)@.primed {
        let before = old(route)@;
        let after = final(route)@;
        let held = pending(before, old(ring)@);
        let phases = choose|phases: Seq<Float64>|
            {
                let passed = phases.len() - 1;
                &&& #[trigger] are_positions::<M>(before, old(ring)@, phases)
                &&& after.phase == phases.last()
                &&& call_ensures(M::has_whole_frame, (after.phase,), !after.primed)
                &&& pending(after, final(ring)@) == held.skip(
                    passed * before.source_channels as int,
                )
            };
        let passed = phases.len() - 1;
        arithmetic::lemma_descent::<M>(place, unit, phases, passed);
        if place(phases[0]) >= 0 {
            assert(0 <= place(after.phase) < unit);
            lemma_fundamental_div_mod_converse(
                place(phases[0]),
                unit,
                passed,
                place(after.phase),
            );
        }
    }
}

/// A route moves on faster the more is queued: where the correction for what is queued is positive
/// above 512 frames and negative below, a step is no shorter than the nominal one above 512 frames
/// and no longer below.
pub proof fn routes_follow_their_queue<M: FloatMath>(
    route: &mut IncomingRoute,
    ring: &mut RingBuffer,
    underruns: &mut u64,
    ready: bool,
    place: spec_fn(Float64) -> int,
    sign: spec_fn(Float64) -> int,
)
    requires
        old(route)@.wf(),
        call_ensures(IncomingRoute::prepare_output_frame::<M>, (route, ring, underruns), ready),
        arithmetic::steps_follow_corrections::<M>(place, sign),
        forall|available: usize, startup: usize, correction: Float64| #[trigger]
            call_ensures(M::fill_correction, (available, startup), correction) ==> {
                &&& available >= startup ==> sign(correction) >= 0
                &&& available <= startup ==> sign(correction) <= 0
            },
    ensures
        ({
            let before = old(route)@;
            let frames = pending(before, old(ring)@).len() as int / before.source_channels as int
                - 2;
            let nominal = place(position(before)) + place(before.nominal_step);
            ready ==> exists|phases: Seq<Float64>|
                {
                    &&& #[trigger] are_positions::<M>(before, old(ring)@, phases)
                    &&& final(route)@.phase == phases.last()
                    &&& 512 <= frames <= usize::MAX ==> place(phases[0]) >= nominal
                    &&& frames <= 512 ==> place(phases[0]) <= nominal
                }
        }),
{
    routes_pass_whole_frames::<M>(route, ring, underruns, ready);
    if ready {
        let before = old(route)@;
        let channels = before.source_channels as int;
        let phases = choose|phases: Seq<Float64>|
            #[trigger] are_positions::<M>(before, old(ring)@, phases) && final(route)@.phase
                == phases.last();
        let held = pending(before, old(ring)@);
        lemma_div_is_ordered(2 * channels, held.len() as int, channels);
        lemma_div_by_multiple(2, channels);
    }
}

/// A route that stops crossing holds the last frame that it took.
proof fn lemma_ran_out<M: FloatMath>(before: Playing, n: nat, after: Playing)
    requires
        before.route.primed,
        !after.route.primed,
        incoming::crosses::<M>(before, n, after),
    ensures
        after.route.current == after.route.next,
    decreases n,
{
    if n > 0 && before.queued.len() >= before.route.source_channels {
        let phase = choose|phase: Float64|
            {
                &&& #[trigger] call_ensures(
                    M::without_whole_frame,
                    (before.route.phase,),
                    phase,
                )
                &&& incoming::crosses::<M>(before.shifted(phase), (n - 1) as nat, after)
            };
        lemma_ran_out::<M>(before.shifted(phase), (n - 1) as nat, after);
    }
}

/// A route that runs out holds the last frame that it took, on both sides of its position.
pub proof fn routes_that_run_out_hold_their_last_frame<M: FloatMath>(
    route: &mut IncomingRoute,
    ring: &mut RingBuffer,
    underruns: &mut u64,
)
    requires
        old(route)@.wf(),
        call_ensures(IncomingRoute::prepare_output_frame::<M>, (route, ring, underruns), true),
        !final(route)@.primed,
    ensures
        final(route)@.current == final(route)@.next,
{
    let before = old(route).with(*old(ring), *old(underruns));
    let after = final(route).with(*final(ring), *final(underruns));
    let started = before.started();
    let (frame, phase, n) = choose|frame: Seq<Float32>, phase: Float64, n: nat|
        {
            &&& incoming::is_between::<M>(started.route, frame)
            &&& incoming::is_moved_on::<M>(started, phase)
            &&& #[trigger] incoming::crosses::<M>(
                incoming::with_frame(started, frame, phase),
                n,
                after,
            )
        };
    lemma_ran_out::<M>(incoming::with_frame(started, frame, phase), n, after);
}

/// The step of a new route is the ratio of the source's sample rate to the sink's. The route plays
/// with the matrix and the gain of the route that was asked for.
pub proof fn new_routes_step_by_the_ratio_of_the_rates<M: FloatMath>(
    consumer: Consumer,
    route: AudioRoute,
    incoming: IncomingRoute,
)
    requires
        call_ensures(IncomingRoute::new::<M>, (consumer, &route), incoming),
    ensures
        call_ensures(
            M::rate_ratio,
            (route.source_sample_rate, route.sink_sample_rate),
            incoming@.nominal_step,
        ),
        incoming@.source_channels == route.source_channels,
        incoming@.sink_channels == route.sink_channels,
        incoming@.matrix == route.matrix@,
        incoming@.gain == route.gain,
        !incoming@.primed,
{
}

/// What a sink channel hears is its own row of the route's matrix, applied to the frame that the
/// route put out, times the route's gain.
pub proof fn sink_channels_hear_their_row<M: FloatMath>(
    route: IncomingRoute,
    channel: usize,
    sample: Float32,
)
    requires
        route@.wf(),
        channel < route@.sink_channels,
        call_ensures(IncomingRoute::mixed_sample::<M>, (&route, channel), sample),
    ensures
        arithmetic::is_row_applied::<M>(
            route@.matrix,
            channel * route@.source_channels,
            route@.interpolated,
            route@.gain,
            sample,
        ),
        forall|read: spec_fn(Float32) -> int| #[trigger]
            arithmetic::is_exact::<M>(read) ==> read(sample) == arithmetic::weighted(
                read,
                route@.matrix,
                channel * route@.source_channels,
                route@.interpolated,
                route@.source_channels,
            ) * read(route@.gain),
{
    let start = channel * route@.source_channels;
    lemma_row::<M>(route@, channel as int, sample);
    assert forall|read: spec_fn(Float32) -> int| #[trigger]
        arithmetic::is_exact::<M>(read) implies read(sample) == arithmetic::weighted(
        read,
        route@.matrix,
        start,
        route@.interpolated,
        route@.source_channels,
    ) * read(route@.gain) by {
        arithmetic::lemma_row_read::<M>(
            read,
            route@.matrix,
            start,
            route@.interpolated,
            route@.gain,
            sample,
        );
    }
}

/// The row of a sink channel starts where the rows of the channels before it end.
pub proof fn lemma_row<M: FloatMath>(route: IncomingView, channel: int, sample: Float32)
    requires
        route.wf(),
        0 <= channel < route.sink_channels,
        crate::matrix::is_mixed::<M>(
            route.row(channel),
            route.interpolated,
            route.gain,
            sample,
        ),
    ensures
        arithmetic::is_row_applied::<M>(
            route.matrix,
            channel * route.source_channels,
            route.interpolated,
            route.gain,
            sample,
        ),
{
    let start = channel * route.source_channels;
    lemma_mul_inequality(channel + 1, route.sink_channels as int, route.source_channels as int);
    lemma_mul_is_distributive_add_other_way(route.source_channels as int, channel, 1);
    lemma_mul_nonnegative(channel, route.source_channels as int);
    arithmetic::lemma_mixed::<M>(
        route.row(channel),
        route.matrix,
        start,
        route.interpolated,
        route.gain,
        sample,
    );
}

/// Through a row that has a one for one source channel and zeros for the others, a sink channel
/// hears that source channel alone.
pub proof fn unit_rows_pick_their_channel<M: FloatMath>(
    route: IncomingRoute,
    channel: usize,
    picked: int,
    sample: Float32,
    read: spec_fn(Float32) -> int,
)
    requires
        route@.wf(),
        channel < route@.sink_channels,
        0 <= picked < route@.source_channels,
        call_ensures(IncomingRoute::mixed_sample::<M>, (&route, channel), sample),
        arithmetic::is_exact::<M>(read),
        forall|k: int|
            0 <= k < route@.source_channels ==> read(
                #[trigger] route@.matrix[channel * route@.source_channels + k],
            ) == if k == picked {
                1int
            } else {
                0
            },
    ensures
        read(sample) == read(route@.interpolated[picked]) * read(route@.gain),
{
    sink_channels_hear_their_row::<M>(route, channel, sample);
    arithmetic::lemma_unit_row(
        read,
        route@.matrix,
        channel * route@.source_channels,
        route@.interpolated,
        picked,
        route@.source_channels,
    );
}

} // verus!
