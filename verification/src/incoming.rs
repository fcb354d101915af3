//! The sink end of a route: resampling and mixing for a device that plays.
use vstd::prelude::*;
use vstd::arithmetic::div_mod::*;
use vstd::arithmetic::mul::*;
use vstd::slice::slice_subrange;
use crate::device::AudioRoute;
use crate::float::{Float32, Float64, FloatMath};
use crate::matrix;
use crate::matrix::mix_frame;
use crate::ring;
use crate::ring::{silence, Consumer, RingBuffer};

verus! {

/// The number of frames that have to be queued before a route starts to play.
pub const STARTUP_FRAMES: usize = 512;

/// The sink end of a route by its values.
#[verifier::ext_equal]
pub struct IncomingView {
    pub source_channels: nat,
    pub sink_channels: nat,
    pub nominal_step: Float64,
    pub gain: Float32,
    pub matrix: Seq<Float32>,
    pub current: Seq<Float32>,
    pub next: Seq<Float32>,
    pub interpolated: Seq<Float32>,
    pub phase: Float64,
    pub primed: bool,
}

/// The sink end of a route, the samples that are queued for it, and the underruns counted so far.
#[verifier::ext_equal]
pub struct Playing {
    pub route: IncomingView,
    pub queued: Seq<Float32>,
    pub underruns: u64,
}

impl IncomingView {
    /// The frames have a sample for each source channel, and the matrix has a coefficient for each
    /// pair of a sink channel and a source channel.
    pub open spec fn wf(self) -> bool {
        &&& 0 < self.source_channels
        &&& self.matrix.len() == self.sink_channels * self.source_channels
        &&& self.current.len() == self.source_channels
        &&& self.next.len() == self.source_channels
        &&& self.interpolated.len() == self.source_channels
    }

    /// The sink end of a route that has not played yet.
    pub open spec fn fresh(route: AudioRoute, nominal_step: Float64) -> IncomingView {
        IncomingView {
            source_channels: route.source_channels as nat,
            sink_channels: route.sink_channels as nat,
            nominal_step,
            gain: route.gain,
            matrix: route.matrix@,
            current: ring::silent(route.source_channels as nat),
            next: ring::silent(route.source_channels as nat),
            interpolated: ring::silent(route.source_channels as nat),
            phase: Float64::zero_value(),
            primed: false,
        }
    }

    /// The coefficients of a sink channel.
    pub open spec fn row(self, sink_channel: int) -> Seq<Float32> {
        self.matrix.subrange(
            sink_channel * self.source_channels,
            sink_channel * self.source_channels + self.source_channels,
        )
    }
}

impl Playing {
    /// The number of whole frames that are queued.
    pub open spec fn queued_frames(self) -> int {
        self.queued.len() as int / self.route.source_channels as int
    }

    /// Too little is queued to start.
    pub open spec fn waits(self) -> bool {
        !self.route.primed && self.queued_frames() < STARTUP_FRAMES
    }

    /// The two oldest frames are at hand.
    pub open spec fn started(self) -> Playing {
        let n = self.route.source_channels as int;
        if self.route.primed {
            self
        } else {
            Playing {
                route: IncomingView {
                    current: self.queued.take(n),
                    next: self.queued.subrange(n, 2 * n),
                    phase: Float64::zero_value(),
                    primed: true,
                    ..self.route
                },
                queued: self.queued.skip(2 * n),
                ..self
            }
        }
    }

    /// The next frame becomes the current one, and the one after it the next.
    pub open spec fn shifted(self, phase: Float64) -> Playing {
        let n = self.route.source_channels as int;
        Playing {
            route: IncomingView {
                current: self.route.next,
                next: self.queued.take(n),
                phase,
                ..self.route
            },
            queued: self.queued.skip(n),
            ..self
        }
    }

    /// There is no frame after the next one: an underrun, after which the route starts anew.
    pub open spec fn run_out(self) -> Playing {
        Playing {
            route: IncomingView { current: self.route.next, primed: false, ..self.route },
            underruns: self.underruns.wrapping_add(1),
            ..self
        }
    }
}

/// `after` is `before` once `n` whole frames of the phase are crossed, the last of them running
/// out where it must.
pub open spec fn crosses<M: FloatMath>(before: Playing, n: nat, after: Playing) -> bool
    decreases n,
{
    if n == 0 {
        &&& after == before
        &&& call_ensures(M::has_whole_frame, (before.route.phase,), false)
    } else {
        &&& call_ensures(M::has_whole_frame, (before.route.phase,), true)
        &&& if before.queued.len() < before.route.source_channels {
            n == 1 && after == before.run_out()
        } else {
            exists|phase: Float64|
                {
                    &&& #[trigger] call_ensures(
                        M::without_whole_frame,
                        (before.route.phase,),
                        phase,
                    )
                    &&& crosses::<M>(before.shifted(phase), (n - 1) as nat, after)
                }
        }
    }
}

/// Each sample of `frame` lies between those of the current and the next frame, as far along as
/// the phase says.
pub open spec fn is_between<M: FloatMath>(route: IncomingView, frame: Seq<Float32>) -> bool {
    &&& frame.len() == route.source_channels
    &&& forall|c: int|
        0 <= c < route.source_channels ==> call_ensures(
            M::interpolate,
            (route.current[c], route.next[c], route.phase),
            #[trigger] frame[c],
        )
}

/// `phase` is the phase once it has moved on by one step, corrected by what is queued.
pub open spec fn is_moved_on<M: FloatMath>(started: Playing, phase: Float64) -> bool {
    exists|correction: Float64|
        {
            &&& call_ensures(
                M::fill_correction,
                (started.queued_frames() as usize, STARTUP_FRAMES),
                correction,
            )
            &&& #[trigger] call_ensures(
                M::advance_phase,
                (started.route.phase, started.route.nominal_step, correction),
                phase,
            )
        }
}

/// The started route with its output and its new phase.
pub open spec fn with_frame(started: Playing, frame: Seq<Float32>, phase: Float64) -> Playing {
    Playing { route: IncomingView { interpolated: frame, phase, ..started.route }, ..started }
}

/// What asking for a frame does: `ready` tells whether one was put out.
pub open spec fn turns<M: FloatMath>(before: Playing, after: Playing, ready: bool) -> bool {
    if before.waits() {
        after == before && !ready
    } else {
        &&& ready
        &&& exists|frame: Seq<Float32>, phase: Float64, n: nat|
            {
                &&& is_between::<M>(before.started().route, frame)
                &&& is_moved_on::<M>(before.started(), phase)
                &&& #[trigger] crosses::<M>(with_frame(before.started(), frame, phase), n, after)
            }
    }
}

/// The sink end of a route.
pub struct IncomingRoute {
    consumer: Consumer,
    source_channels: usize,
    sink_channels: usize,
    nominal_step: Float64,
    gain: Float32,
    matrix: Vec<Float32>,
    current: Vec<Float32>,
    next: Vec<Float32>,
    interpolated: Vec<Float32>,
    phase: Float64,
    primed: bool,
}

impl View for IncomingRoute {
    type V = IncomingView;

    closed spec fn view(&self) -> IncomingView {
        IncomingView {
            source_channels: self.source_channels as nat,
            sink_channels: self.sink_channels as nat,
            nominal_step: self.nominal_step,
            gain: self.gain,
            matrix: self.matrix@,
            current: self.current@,
            next: self.next@,
            interpolated: self.interpolated@,
            phase: self.phase,
            primed: self.primed,
        }
    }
}

impl IncomingRoute {
    /// The sink end with what is queued for it and the underruns counted so far.
    pub open spec fn with(self, ring: RingBuffer, underruns: u64) -> Playing {
        Playing { route: self@, queued: ring@, underruns }
    }

    /// The sink end of a route that has not played yet.
    pub fn new<M: FloatMath>(consumer: Consumer, route: &AudioRoute) -> (incoming: Self)
        ensures
            exists|step: Float64|
                #[trigger] call_ensures(
                    M::rate_ratio,
                    (route.source_sample_rate, route.sink_sample_rate),
                    step,
                ) && incoming@ == IncomingView::fresh(*route, step),
    {
        let nominal_step = M::rate_ratio(route.source_sample_rate, route.sink_sample_rate);
        let channels: usize = route.source_channels as usize;
        let matrix = route.matrix.clone();
        assert(matrix@ =~= route.matrix@);
        let incoming = IncomingRoute {
            consumer,
            source_channels: channels,
            sink_channels: route.sink_channels as usize,
            nominal_step,
            gain: route.gain,
            matrix,
            current: silence(channels),
            next: silence(channels),
            interpolated: silence(channels),
            phase: Float64::zero(),
            primed: false,
        };
        assert(incoming@ =~= IncomingView::fresh(*route, nominal_step));
        incoming
    }

    /// The number of channels that the route plays to.
    pub fn sink_channels(&self) -> (channels: usize)
        ensures
            channels == self@.sink_channels,
    {
        self.sink_channels
    }

    /// Takes the oldest frame of the ring as the current or the next one.
    fn read_source_frame(&mut self, ring: &mut RingBuffer, next: bool) -> (read: bool)
        requires
            old(self)@.wf(),
        ensures
            final(ring).capacity() == old(ring).capacity(),
            read == (old(self)@.source_channels <= old(ring)@.len()),
            final(ring)@ == if read {
                old(ring)@.skip(old(self)@.source_channels as int)
            } else {
                old(ring)@
            },
            final(self)@ == if !read {
                old(self)@
            } else if next {
                IncomingView {
                    next: old(ring)@.take(old(self)@.source_channels as int),
                    ..old(self)@
                }
            } else {
                IncomingView {
                    current: old(ring)@.take(old(self)@.source_channels as int),
                    ..old(self)@
                }
            },
    {
        if self.consumer.available(ring) < self.source_channels {
            return false;
        }
        if next {
            self.consumer.pop_slice(ring, self.next.as_mut_slice());
        } else {
            self.consumer.pop_slice(ring, self.current.as_mut_slice());
        }
        proof {
            let frame = old(ring)@.take(old(self)@.source_channels as int);
            if next {
                assert(self.next@ =~= frame);
            } else {
                assert(self.current@ =~= frame);
            }
        }
        true
    }

    /// Gets the two oldest frames at hand, unless too little is queued.
    fn start(&mut self, ring: &mut RingBuffer) -> (started: bool)
        requires
            old(self)@.wf(),
        ensures
            final(self)@.wf(),
            final(ring).capacity() == old(ring).capacity(),
            forall|underruns: u64|
                {
                    let before = #[trigger] old(self).with(*old(ring), underruns);
                    let after = final(self).with(*final(ring), underruns);
                    &&& started == !before.waits()
                    &&& after == if started {
                        before.started()
                    } else {
                        before
                    }
                },
    {
        if self.primed {
            return true;
        }
        let available: usize = self.consumer.available(ring);
        if available / self.source_channels < STARTUP_FRAMES {
            return false;
        }
        proof {
            let n = self.source_channels as int;
            lemma_fundamental_div_mod(available as int, n);
            lemma_mod_bound(available as int, n);
            lemma_mul_inequality(2, available as int / n, n);
            lemma_mul_is_commutative(available as int / n, n);
            assert(2 * n <= available);
        }
        self.read_source_frame(ring, false);
        self.read_source_frame(ring, true);
        self.phase = Float64::zero();
        self.primed = true;
        proof {
            let n = self.source_channels as int;
            let queued = old(ring)@;
            assert(queued.skip(n).take(n) =~= queued.subrange(n, 2 * n));
            assert(queued.skip(n).skip(n) =~= queued.skip(2 * n));
        }
        true
    }

    /// Puts the frame at the phase between the current and the next one.
    fn interpolate<M: FloatMath>(&mut self)
        requires
            old(self)@.wf(),
        ensures
            is_between::<M>(old(self)@, final(self)@.interpolated),
            final(self)@ == (IncomingView {
                interpolated: final(self)@.interpolated,
                ..old(self)@
            }),
    {
        let mut channel: usize = 0;
        while channel < self.source_channels
            invariant
                old(self)@.wf(),
                self@ == (IncomingView { interpolated: self@.interpolated, ..old(self)@ }),
                self@.interpolated.len() == old(self)@.source_channels,
                channel <= old(self)@.source_channels,
                forall|c: int|
                    0 <= c < channel ==> call_ensures(
                        M::interpolate,
                        (old(self)@.current[c], old(self)@.next[c], old(self)@.phase),
                        #[trigger] self@.interpolated[c],
                    ),
            decreases old(self)@.source_channels - channel,
        {
            let sample = M::interpolate(self.current[channel], self.next[channel], self.phase);
            self.interpolated[channel] = sample;
            channel = channel + 1;
        }
    }

    /// Makes the next frame the current one as well.
    fn copy_next(&mut self)
        requires
            old(self)@.wf(),
        ensures
            final(self)@ == (IncomingView { current: old(self)@.next, ..old(self)@ }),
    {
        let mut channel: usize = 0;
        while channel < self.source_channels
            invariant
                old(self)@.wf(),
                self@ == (IncomingView { current: self@.current, ..old(self)@ }),
                self@.current.len() == old(self)@.source_channels,
                channel <= old(self)@.source_channels,
                forall|c: int| 0 <= c < channel ==> self@.current[c] == old(self)@.next[c],
            decreases old(self)@.source_channels - channel,
        {
            self.current[channel] = self.next[channel];
            channel = channel + 1;
        }
        assert(self@.current =~= old(self)@.next);
    }

    /// Crosses the whole frames of the phase, as far as there are frames.
    fn cross_whole_frames<M: FloatMath>(&mut self, ring: &mut RingBuffer, underruns: &mut u64)
        requires
            old(self)@.wf(),
        ensures
            final(self)@.wf(),
            final(ring).capacity() == old(ring).capacity(),
            final(self)@.source_channels == old(self)@.source_channels,
            final(self)@.sink_channels == old(self)@.sink_channels,
            exists|n: nat|
                #[trigger] crosses::<M>(
                    old(self).with(*old(ring), *old(underruns)),
                    n,
                    final(self).with(*final(ring), *final(underruns)),
                ),
    {
        let ghost before = self.with(*ring, *underruns);
        let ghost mut crossed: nat = 0;
        let mut whole = M::has_whole_frame(self.phase);
        while whole
            invariant
                self@.wf(),
                self@.source_channels == old(self)@.source_channels,
                self@.sink_channels == old(self)@.sink_channels,
                before == old(self).with(*old(ring), *old(underruns)),
                ring.capacity() == old(ring).capacity(),
                *underruns == *old(underruns),
                call_ensures(M::has_whole_frame, (self@.phase,), whole),
                forall|n: nat, after: Playing| #[trigger]
                    crosses::<M>(self.with(*ring, *underruns), n, after) ==> crosses::<M>(
                        before,
                        n + crossed,
                        after,
                    ),
            decreases ring@.len(),
        {
            let ghost here = self.with(*ring, *underruns);
            self.copy_next();
            if !self.read_source_frame(ring, true) {
                self.primed = false;
                *underruns = (*underruns).wrapping_add(1);
                proof {
                    let after = self.with(*ring, *underruns);
                    assert(after =~= here.run_out());
                    assert(crosses::<M>(here, 1, after));
                    assert(crosses::<M>(before, 1 + crossed, after));
                }
                return;
            }
            let phase = M::without_whole_frame(self.phase);
            self.phase = phase;
            whole = M::has_whole_frame(self.phase);
            proof {
                assert(self.with(*ring, *underruns) =~= here.shifted(phase));
                assert(call_ensures(M::without_whole_frame, (here.route.phase,), phase));
                assert forall|n: nat, after: Playing| #[trigger]
                    crosses::<M>(self.with(*ring, *underruns), n, after) implies crosses::<M>(
                    before,
                    n + (crossed + 1),
                    after,
                ) by {
                    assert(crosses::<M>(here.shifted(phase), (n + 1 - 1) as nat, after));
                    assert(crosses::<M>(here, n + 1, after));
                }
                crossed = crossed + 1;
            }
        }
        assert(crosses::<M>(self.with(*ring, *underruns), 0, self.with(*ring, *underruns)));
    }

    /// Puts out the next frame, where there is one.
    pub fn prepare_output_frame<M: FloatMath>(
        &mut self,
        ring: &mut RingBuffer,
        underruns: &mut u64,
    ) -> (ready: bool)
        requires
            old(self)@.wf(),
        ensures
            final(self)@.wf(),
            final(self)@.source_channels == old(self)@.source_channels,
            final(self)@.sink_channels == old(self)@.sink_channels,
            final(ring).capacity() == old(ring).capacity(),
            turns::<M>(
                old(self).with(*old(ring), *old(underruns)),
                final(self).with(*final(ring), *final(underruns)),
                ready,
            ),
    {
        let ghost before = self.with(*ring, *underruns);
        if !self.start(ring) {
            return false;
        }
        let ghost started = self.with(*ring, *underruns);
        self.interpolate::<M>();
        let ghost frame = self@.interpolated;
        let available_frames: usize = self.consumer.available(ring) / self.source_channels;
        let correction = M::fill_correction(available_frames, STARTUP_FRAMES);
        self.phase = M::advance_phase(self.phase, self.nominal_step, correction);
        let ghost phase = self.phase;
        proof {
            assert(is_moved_on::<M>(started, phase)) by {
                assert(call_ensures(
                    M::advance_phase,
                    (started.route.phase, started.route.nominal_step, correction),
                    phase,
                ));
            }
            assert(self.with(*ring, *underruns) =~= with_frame(started, frame, phase));
        }
        self.cross_whole_frames::<M>(ring, underruns);
        proof {
            let after = self.with(*ring, *underruns);
            let n = choose|n: nat|
                #[trigger] crosses::<M>(with_frame(started, frame, phase), n, after);
            assert(crosses::<M>(with_frame(before.started(), frame, phase), n, after));
            assert(turns::<M>(before, after, true));
        }
        true
    }

    /// The sample for a sink channel of the frame that was put out last.
    pub fn mixed_sample<M: FloatMath>(&self, sink_channel: usize) -> (sample: Float32)
        requires
            self@.wf(),
            sink_channel < self@.sink_channels,
        ensures
            matrix::is_mixed::<M>(
                self@.row(sink_channel as int),
                self@.interpolated,
                self@.gain,
                sample,
            ),
    {
        proof {
            let n = self.source_channels as int;
            lemma_mul_nonnegative(sink_channel as int, n);
            lemma_mul_inequality(sink_channel as int + 1, self.sink_channels as int, n);
            lemma_mul_is_distributive_add_other_way(n, sink_channel as int, 1);
        }
        let length: usize = self.matrix.len();
        let start: usize = sink_channel * self.source_channels;
        let row = slice_subrange(self.matrix.as_slice(), start, start + self.source_channels);
        mix_frame::<M>(row, self.interpolated.as_slice(), self.gain)
    }
}

/// While too little is queued to start, asking for a frame consumes nothing and counts nothing.
pub proof fn waiting_routes_consume_nothing<M: FloatMath>(
    before: Playing,
    after: Playing,
    ready: bool,
)
    requires
        before.waits(),
        turns::<M>(before, after, ready),
    ensures
        !ready,
        after == before,
{
}

/// Crossing frames takes whole frames from the front of the queue, and counts an underrun exactly
/// where the route stops playing.
proof fn lemma_crosses<M: FloatMath>(before: Playing, n: nat, after: Playing) -> (taken: nat)
    requires
        before.route.wf(),
        before.route.primed,
        crosses::<M>(before, n, after),
    ensures
        taken * before.route.source_channels <= before.queued.len(),
        after.queued == before.queued.skip((taken * before.route.source_channels) as int),
        after.underruns == if after.route.primed {
            before.underruns
        } else {
            before.underruns.wrapping_add(1)
        },
    decreases n,
{
    let channels = before.route.source_channels;
    if n == 0 || before.queued.len() < channels {
        assert(0 * channels == 0);
        assert(before.queued.skip(0) =~= before.queued);
        0
    } else {
        let phase = choose|phase: Float64|
            {
                &&& #[trigger] call_ensures(
                    M::without_whole_frame,
                    (before.route.phase,),
                    phase,
                )
                &&& crosses::<M>(before.shifted(phase), (n - 1) as nat, after)
            };
        let more = lemma_crosses::<M>(before.shifted(phase), (n - 1) as nat, after);
        assert((more + 1) * channels == more * channels + channels) by (nonlinear_arith);
        assert(0 <= more * channels) by (nonlinear_arith);
        assert(after.queued =~= before.queued.skip(((more + 1) * channels) as int));
        more + 1
    }
}

/// A route takes the queued frames in their order, whole frames at a time, and counts an underrun
/// exactly where it stops playing.
pub proof fn routes_take_frames_in_order<M: FloatMath>(
    before: Playing,
    after: Playing,
    ready: bool,
)
    requires
        before.route.wf(),
        turns::<M>(before, after, ready),
    ensures
        exists|taken: nat|
            {
                &&& taken * before.route.source_channels <= before.queued.len()
                &&& after.queued == #[trigger] before.queued.skip(
                    (taken * before.route.source_channels) as int,
                )
            },
        ready ==> after.underruns == if after.route.primed {
            before.underruns
        } else {
            before.underruns.wrapping_add(1)
        },
{
    let channels = before.route.source_channels;
    if !ready {
        assert(0 * channels == 0);
        assert(before.queued.skip((0 * channels) as int) =~= before.queued);
    } else {
        let started = before.started();
        let (frame, phase, n) = choose|frame: Seq<Float32>, phase: Float64, n: nat|
            {
                &&& is_between::<M>(started.route, frame)
                &&& is_moved_on::<M>(started, phase)
                &&& #[trigger] crosses::<M>(with_frame(started, frame, phase), n, after)
            };
        if !before.route.primed {
            lemma_fundamental_div_mod(before.queued.len() as int, channels as int);
            lemma_mod_bound(before.queued.len() as int, channels as int);
            lemma_mul_inequality(2, before.queued_frames(), channels as int);
            lemma_mul_is_commutative(before.queued_frames(), channels as int);
        }
        let taken = lemma_crosses::<M>(with_frame(started, frame, phase), n, after);
        let first: nat = if before.route.primed {
            0
        } else {
            2
        };
        assert((first + taken) * channels == first * channels + taken * channels)
            by (nonlinear_arith);
        assert(0 <= taken * channels) by (nonlinear_arith);
        assert(0 * channels == 0);
        assert(after.queued =~= before.queued.skip(((first + taken) * channels) as int));
    }
}

} // verus!
