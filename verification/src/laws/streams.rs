//! Laws of streams between the process and a device.
use vstd::prelude::*;
use vstd::arithmetic::div_mod::*;
use vstd::arithmetic::mul::*;
use crate::float::{Float32, Float64, FloatMath};
use crate::laws::arithmetic;
use crate::pcm::PcmStreamState;
use crate::resampler;
use crate::resampler::{ResamplerView, Resampling, RingResampler};

verus! {

/// The samples that a resampler holds or has queued and not passed yet, the oldest first.
pub open spec fn waiting(r: ResamplerView, queued: Seq<Float32>) -> Seq<Float32> {
    let current = if r.have_current {
        r.current
    } else {
        Seq::empty()
    };
    let next = if r.have_next {
        r.next
    } else {
        Seq::empty()
    };
    current + next + queued
}

/// The number of frames at which playing starts: the desired number, and no fewer than two.
pub open spec fn start_frames(r: ResamplerView) -> int {
    if r.target_fill_frames < 2 {
        2
    } else {
        r.target_fill_frames as int
    }
}

/// `phases` are the positions that a resampler comes to for one frame: first that after one step,
/// corrected by how many frames are buffered against how many are desired, then one for each frame
/// passed.
pub open spec fn are_positions<M: FloatMath>(
    r: ResamplerView,
    queued: Seq<Float32>,
    phases: Seq<Float64>,
) -> bool {
    &&& arithmetic::descends::<M>(phases)
    &&& exists|correction: Float64|
        {
            &&& call_ensures(
                M::drift_correction,
                (
                    (waiting(r, queued).len() as int / r.channels as int) as usize,
                    r.target_fill_frames,
                    r.control_span_frames,
                    r.max_drift_ratio,
                ),
                correction,
            )
            &&& #[trigger] call_ensures(
                M::advance_phase,
                (r.phase, r.nominal_step, correction),
                phases[0],
            )
        }
}

/// What is buffered is what waits, in frames.
proof fn lemma_buffered(r: Resampling)
    requires
        r.resampler.wf(),
    ensures
        r.buffered_frames() == waiting(r.resampler, r.feed.queued).len() as int
            / r.resampler.channels as int,
{
    let channels = r.resampler.channels;
    let length = r.feed.queued.len() as int;
    lemma_hoist_over_denominator(length, 1, channels);
    lemma_hoist_over_denominator(length, 2, channels);
    assert(1 * channels == channels);
}

/// The positions that passing whole frames comes to, and what is left then.
proof fn lemma_passing<M: FloatMath>(before: Resampling, n: nat, after: Resampling) -> (phases: Seq<
    Float64,
>)
    requires
        before.resampler.wf(),
        before.resampler.have_current,
        before.resampler.have_next || before.feed.queued.len() < before.resampler.channels,
        resampler::passes::<M>(before, n, after),
    ensures
        arithmetic::descends::<M>(phases),
        phases[0] == before.resampler.phase,
        after.resampler == (ResamplerView {
            current: after.resampler.current,
            next: after.resampler.next,
            have_next: after.resampler.have_next,
            phase: phases.last(),
            ..before.resampler
        }),
        after.resampler.wf(),
        after.resampler.have_next || after.feed.queued.len() < after.resampler.channels,
        after.resampler.have_next ==> call_ensures(M::has_whole_frame, (phases.last(),), false),
        ({
            let channels = before.resampler.channels as int;
            let held = waiting(before.resampler, before.feed.queued);
            let passed = phases.len() - 1;
            &&& passed * channels + channels <= held.len()
            &&& waiting(after.resampler, after.feed.queued) == held.skip(passed * channels)
        }),
    decreases n,
{
    let channels = before.resampler.channels as int;
    let held = waiting(before.resampler, before.feed.queued);
    assert(0 * channels == 0);
    if n == 0 {
        assert(held.skip(0) =~= held);
        assert(after.resampler =~= ResamplerView {
            phase: before.resampler.phase,
            ..before.resampler
        });
        seq![before.resampler.phase]
    } else {
        let phase = choose|phase: Float64|
            {
                &&& #[trigger] call_ensures(
                    M::without_whole_frame,
                    (before.resampler.phase,),
                    phase,
                )
                &&& resampler::passes::<M>(before.shifted(phase), (n - 1) as nat, after)
            };
        let middle = before.shifted(phase);
        let rest = lemma_passing::<M>(middle, (n - 1) as nat, after);
        let phases = seq![before.resampler.phase] + rest;
        let fewer = waiting(middle.resampler, middle.feed.queued);
        assert(fewer =~= held.skip(channels));
        let passed = phases.len() - 1;
        lemma_mul_is_distributive_sub_other_way(channels, passed, 1);
        lemma_mul_nonnegative(passed - 1, channels);
        assert((passed - 1) * channels == passed * channels - channels);
        assert(fewer.skip((passed - 1) * channels) =~= held.skip(passed * channels));
        assert forall|k: int| 0 <= k < phases.len() - 1 implies {
            &&& call_ensures(M::has_whole_frame, (#[trigger] phases[k],), true)
            &&& call_ensures(M::without_whole_frame, (phases[k],), phases[k + 1])
        } by {
            if k > 0 {
                assert(phases[k] == rest[k - 1]);
                assert(phases[k + 1] == rest[k - 1 + 1]);
            }
        }
        phases
    }
}

/// What asking for a frame does, in terms of what waits.
pub open spec fn serves_frame<M: FloatMath>(
    before: ResamplerView,
    queued: Seq<Float32>,
    after: ResamplerView,
    left: Seq<Float32>,
    ready: bool,
) -> bool {
    let channels = before.channels as int;
    let held = waiting(before, queued);
    let kept = waiting(after, left);
    &&& ready == (2 * channels <= held.len() && (before.primed || held.len() as int / channels
        >= start_frames(before)))
    &&& after.has_primed == (before.has_primed || ready)
    &&& !ready ==> {
        &&& kept == held
        &&& !after.primed
        &&& after.phase == before.phase
        &&& after.interpolated == before.interpolated
    }
    &&& ready ==> {
        &&& after.interpolated.len() == channels
        &&& forall|c: int|
            0 <= c < channels ==> call_ensures(
                M::interpolate,
                (held[c], held[channels + c], before.phase),
                #[trigger] after.interpolated[c],
            )
        &&& after.primed == (2 * channels <= kept.len())
        &&& exists|phases: Seq<Float64>|
            {
                &&& #[trigger] are_positions::<M>(before, queued, phases)
                &&& after.phase == phases.last()
                &&& after.primed ==> call_ensures(M::has_whole_frame, (after.phase,), false)
                &&& (phases.len() - 1) * channels + channels <= held.len()
                &&& kept == held.skip((phases.len() - 1) * channels)
            }
    }
    &&& after.channels == before.channels
    &&& after.target_fill_frames == before.target_fill_frames
    &&& after.control_span_frames == before.control_span_frames
    &&& after.nominal_step == before.nominal_step
    &&& after.max_drift_ratio == before.max_drift_ratio
}

/// What a step of a resampler does, in terms of what waits.
pub proof fn lemma_steps<M: FloatMath>(before: Resampling, after: Resampling, ready: bool)
    requires
        before.resampler.wf(),
        resampler::steps::<M>(before, after, ready),
    ensures
        serves_frame::<M>(
            before.resampler,
            before.feed.queued,
            after.resampler,
            after.feed.queued,
            ready,
        ),
        after.resampler.wf(),
{
    let r = before.resampler;
    let channels = r.channels as int;
    let held = waiting(r, before.feed.queued);
    let length = before.feed.queued.len() as int;
    lemma_buffered(before);
    lemma_fundamental_div_mod(held.len() as int, channels);
    lemma_mod_bound(held.len() as int, channels);
    lemma_mul_is_commutative(channels, held.len() as int / channels);
    if held.len() as int / channels >= 2 {
        lemma_mul_inequality(2, held.len() as int / channels, channels);
    }
    if !before.waits() {
        let loaded = before.loaded();
        assert(waiting(loaded.resampler, loaded.feed.queued) =~= held);
        assert(waiting(loaded.stopped().resampler, loaded.stopped().feed.queued) =~= held);
        if loaded.resampler.have_next {
            let (frame, phase, n, passed) = choose|
                frame: Seq<Float32>,
                phase: Float64,
                n: nat,
                passed: Resampling,
            |
                {
                    &&& resampler::is_interpolated::<M>(loaded.resampler, frame)
                    &&& resampler::is_advanced::<M>(loaded, phase)
                    &&& #[trigger] resampler::passes::<M>(
                        resampler::with_output(loaded, frame, phase),
                        n,
                        passed,
                    )
                    &&& after == if passed.resampler.have_next {
                        passed
                    } else {
                        passed.stopped()
                    }
                };
            let out = resampler::with_output(loaded, frame, phase);
            assert(waiting(out.resampler, out.feed.queued) =~= held);
            let phases = lemma_passing::<M>(out, n, passed);
            assert(waiting(after.resampler, after.feed.queued) =~= waiting(
                passed.resampler,
                passed.feed.queued,
            ));
            assert(after.resampler.interpolated == frame);
            assert forall|c: int| 0 <= c < channels implies call_ensures(
                M::interpolate,
                (held[c], held[channels + c], r.phase),
                #[trigger] after.resampler.interpolated[c],
            ) by {
                assert(held[c] == loaded.resampler.current[c]);
                assert(held[channels + c] == loaded.resampler.next[c]);
            }
            lemma_buffered(loaded);
            let correction = choose|correction: Float64|
                {
                    &&& call_ensures(
                        M::drift_correction,
                        (
                            loaded.buffered_frames() as usize,
                            r.target_fill_frames,
                            r.control_span_frames,
                            r.max_drift_ratio,
                        ),
                        correction,
                    )
                    &&& #[trigger] call_ensures(
                        M::advance_phase,
                        (r.phase, r.nominal_step, correction),
                        phase,
                    )
                };
            assert(are_positions::<M>(r, before.feed.queued, phases));
        }
    }
}

/// Frames come out once the desired number is buffered, and no fewer than two, and until fewer than
/// two are left. Otherwise nothing is passed. A frame that comes out lies between the two oldest
/// ones, as far along as the position says. Then the position moves on by a step, and as many frames
/// are passed as it holds whole ones and there are frames behind the oldest.
pub proof fn resamplers_pass_whole_frames<M: FloatMath>(
    r: &mut RingResampler,
    state: &mut PcmStreamState,
    ready: bool,
)
    requires
        old(r)@.wf(),
        call_ensures(RingResampler::prepare_next_frame::<M>, (r, state), ready),
    ensures
        serves_frame::<M>(old(r)@, old(state).ring@, final(r)@, final(state).ring@, ready),
        old(state).ring@.len() == old(state).metrics.ring_fill_frames * old(r)@.channels ==>
            final(state).ring@.len() == final(state).metrics.ring_fill_frames * old(r)@.channels,
        final(state).ring.capacity() == old(state).ring.capacity(),
        final(state).closed == old(state).closed,
{
    let before = old(r).with(*old(state));
    let after = final(r).with(*final(state));
    lemma_steps::<M>(before, after, ready);
    if before.feed.counts(before.resampler.channels) {
        resampler::fill_follows_the_ring::<M>(before, after, ready);
    }
}

/// The frame that is handed out is the one that was put out.
pub proof fn next_frames_are_those_put_out<M: FloatMath>(
    r: &mut RingResampler,
    state: &mut PcmStreamState,
    frame: Option<&[Float32]>,
)
    requires
        old(r)@.wf(),
        call_ensures(RingResampler::next_frame::<M>, (r, state), frame),
    ensures
        serves_frame::<M>(
            old(r)@,
            old(state).ring@,
            final(r)@,
            final(state).ring@,
            frame is Some,
        ),
        frame matches Some(frame) ==> frame@ == final(r)@.interpolated,
{
    lemma_steps::<M>(old(r).with(*old(state)), final(r).with(*final(state)), frame is Some);
}

/// Where positions are read in parts of a frame, as many frames are passed as the new position holds
/// whole ones, as long as two frames are left, and the part that is less than a frame remains.
pub proof fn resamplers_keep_the_fraction_of_a_frame<M: FloatMath>(
    before: ResamplerView,
    queued: Seq<Float32>,
    after: ResamplerView,
    left: Seq<Float32>,
    place: spec_fn(Float64) -> int,
    unit: int,
)
    requires
        serves_frame::<M>(before, queued, after, left, true),
        after.primed,
        arithmetic::is_positional::<M>(place, unit),
    ensures
        exists|phases: Seq<Float64>|
            {
                &&& #[trigger] are_positions::<M>(before, queued, phases)
                &&& place(after.phase) < unit
                &&& place(phases[0]) >= 0 ==> {
                    &&& place(after.phase) == place(phases[0]) % unit
                    &&& waiting(after, left) == waiting(before, queued).skip(
                        place(phases[0]) / unit * before.channels,
                    )
                }
            },
{
    let held = waiting(before, queued);
    let phases = choose|phases: Seq<Float64>|
        {
            &&& #[trigger] are_positions::<M>(before, queued, phases)
            &&& after.phase == phases.last()
            &&& after.primed ==> call_ensures(M::has_whole_frame, (after.phase,), false)
            &&& (phases.len() - 1) * before.channels as int + before.channels as int <= held.len()
            &&& waiting(after, left) == held.skip((phases.len() - 1) * before.channels as int)
        };
    let passed = phases.len() - 1;
    arithmetic::lemma_descent::<M>(place, unit, phases, passed);
    if place(phases[0]) >= 0 {
        assert(0 <= place(after.phase) < unit);
        lemma_fundamental_div_mod_converse(place(phases[0]), unit, passed, place(after.phase));
    }
}

/// Drift is corrected towards the desired fill: where the correction is positive above the target
/// and negative below, a step is no shorter than the nominal one while more than the desired number
/// of frames is buffered, and no longer while fewer are.
pub proof fn drift_is_corrected_towards_the_target<M: FloatMath>(
    r: &mut RingResampler,
    state: &mut PcmStreamState,
    place: spec_fn(Float64) -> int,
    sign: spec_fn(Float64) -> int,
)
    requires
        old(r)@.wf(),
        call_ensures(RingResampler::prepare_next_frame::<M>, (r, state), true),
        arithmetic::steps_follow_corrections::<M>(place, sign),
        forall|fill: usize, target: usize, span: usize, limit: Float64, correction: Float64|
            #[trigger]
            call_ensures(M::drift_correction, (fill, target, span, limit), correction) ==> {
                &&& fill >= target ==> sign(correction) >= 0
                &&& fill <= target ==> sign(correction) <= 0
            },
    ensures
        ({
            let before = old(r)@;
            let frames = waiting(before, old(state).ring@).len() as int / before.channels as int;
            let nominal = place(before.phase) + place(before.nominal_step);
            exists|phases: Seq<Float64>|
                {
                    &&& #[trigger] are_positions::<M>(before, old(state).ring@, phases)
                    &&& final(r)@.phase == phases.last()
                    &&& before.target_fill_frames <= frames <= usize::MAX ==> place(phases[0])
                        >= nominal
                    &&& frames <= before.target_fill_frames ==> place(phases[0]) <= nominal
                }
        }),
{
    resamplers_pass_whole_frames::<M>(r, state, true);
    let before = old(r)@;
    let phases = choose|phases: Seq<Float64>|
        #[trigger] are_positions::<M>(before, old(state).ring@, phases) && final(r)@.phase
            == phases.last();
    lemma_div_pos_is_pos(
        waiting(before, old(state).ring@).len() as int,
        before.channels as int,
    );
}

/// What counts as buffered is what waits in the ring and at hand, and the correction that it calls
/// for is the one for so many frames against the desired number.
pub proof fn held_frames_count_as_buffered<M: FloatMath>(
    r: RingResampler,
    state: PcmStreamState,
    frames: usize,
    correction: Float64,
)
    requires
        r@.wf(),
        call_ensures(RingResampler::buffered_frames, (&r, &state), frames),
        call_ensures(RingResampler::drift_correction::<M>, (&r, &state), correction),
    ensures
        frames == waiting(r@, state.ring@).len() as int / r@.channels as int,
        call_ensures(
            M::drift_correction,
            (
                frames,
                r@.target_fill_frames,
                r@.control_span_frames,
                r@.max_drift_ratio,
            ),
            correction,
        ),
{
    lemma_buffered(r.with(state));
}

} // verus!
