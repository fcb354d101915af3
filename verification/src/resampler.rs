//! Linear resampling of what a ring buffer holds, with correction of clock drift.
use vstd::prelude::*;
use vstd::arithmetic::div_mod::*;
use vstd::arithmetic::mul::*;
use crate::float::{Float32, Float64, FloatMath};
use crate::pcm::PcmStreamState;
use crate::ring;
use crate::ring::{silence, Consumer};

verus! {

/// The queued samples of a stream and the number of frames that is counted as queued.
#[verifier::ext_equal]
pub struct Feed {
    pub queued: Seq<Float32>,
    pub fill: usize,
}

/// A resampler by its values.
#[verifier::ext_equal]
pub struct ResamplerView {
    pub channels: nat,
    pub target_fill_frames: usize,
    pub priming_threshold_frames: usize,
    pub control_span_frames: usize,
    pub nominal_step: Float64,
    pub max_drift_ratio: Float64,
    pub current: Seq<Float32>,
    pub next: Seq<Float32>,
    pub interpolated: Seq<Float32>,
    pub phase: Float64,
    pub have_current: bool,
    pub have_next: bool,
    pub primed: bool,
    pub has_primed: bool,
}

/// A resampler and the feed that it draws on.
#[verifier::ext_equal]
pub struct Resampling {
    pub resampler: ResamplerView,
    pub feed: Feed,
}

impl Feed {
    /// A whole frame is queued.
    pub open spec fn has_frame(self, channels: nat) -> bool {
        channels <= self.queued.len()
    }

    /// The oldest frame.
    pub open spec fn frame(self, channels: nat) -> Seq<Float32> {
        self.queued.take(channels as int)
    }

    /// The feed once the oldest frame is taken.
    pub open spec fn without_frame(self, channels: nat) -> Feed {
        Feed { queued: self.queued.skip(channels as int), fill: self.fill.wrapping_sub(1) }
    }

    /// The count is the number of frames in the queue, which holds no part of a frame.
    pub open spec fn counts(self, channels: nat) -> bool {
        self.queued.len() == self.fill * channels
    }
}

impl ResamplerView {
    /// The held frames have a sample for each channel, there is no next frame without a current
    /// one, and what is primed has been primed. Playing starts at the desired number of frames, and
    /// at no fewer than two. Drift is measured over no more than the desired number of frames.
    pub open spec fn wf(self) -> bool {
        &&& 0 < self.channels
        &&& self.priming_threshold_frames == if self.target_fill_frames < 2 {
            2
        } else {
            self.target_fill_frames
        }
        &&& self.control_span_frames <= self.target_fill_frames
        &&& self.current.len() == self.channels
        &&& self.next.len() == self.channels
        &&& self.interpolated.len() == self.channels
        &&& self.have_next ==> self.have_current
        &&& self.primed ==> self.has_primed
    }

    /// A resampler that holds no frame yet.
    pub open spec fn fresh(
        channels: nat,
        target_fill_frames: usize,
        capacity_frames: usize,
        nominal_step: Float64,
        max_drift_ratio: Float64,
    ) -> ResamplerView {
        let headroom = (capacity_frames - target_fill_frames) as usize;
        ResamplerView {
            channels,
            target_fill_frames,
            priming_threshold_frames: if target_fill_frames < 2 {
                2
            } else {
                target_fill_frames
            },
            control_span_frames: if target_fill_frames < headroom {
                target_fill_frames
            } else {
                headroom
            },
            nominal_step,
            max_drift_ratio,
            current: ring::silent(channels),
            next: ring::silent(channels),
            interpolated: ring::silent(channels),
            phase: Float64::zero_value(),
            have_current: false,
            have_next: false,
            primed: false,
            has_primed: false,
        }
    }
}

impl Resampling {
    /// Frames in the ring and frames that the resampler holds.
    pub open spec fn buffered_frames(self) -> nat {
        (self.feed.queued.len() / self.resampler.channels + if self.resampler.have_current {
            1nat
        } else {
            0
        } + if self.resampler.have_next {
            1nat
        } else {
            0
        }) as nat
    }

    /// Playing has to wait: too little is buffered to start.
    pub open spec fn waits(self) -> bool {
        !self.resampler.primed && self.buffered_frames() < self.resampler.priming_threshold_frames
    }

    /// Playing has started.
    pub open spec fn started(self) -> Resampling {
        Resampling {
            resampler: ResamplerView { primed: true, has_primed: true, ..self.resampler },
            feed: self.feed,
        }
    }

    /// Playing has to start again.
    pub open spec fn stopped(self) -> Resampling {
        Resampling {
            resampler: ResamplerView { primed: false, ..self.resampler },
            feed: self.feed,
        }
    }

    /// Holds a current frame, where there is one to be had.
    pub open spec fn with_current(self) -> Resampling {
        let channels = self.resampler.channels;
        if self.resampler.have_current || !self.feed.has_frame(channels) {
            self
        } else {
            Resampling {
                resampler: ResamplerView {
                    current: self.feed.frame(channels),
                    have_current: true,
                    ..self.resampler
                },
                feed: self.feed.without_frame(channels),
            }
        }
    }

    /// Holds a next frame, where there is one to be had.
    pub open spec fn with_next(self) -> Resampling {
        let channels = self.resampler.channels;
        if self.resampler.have_next || !self.feed.has_frame(channels) {
            self
        } else {
            Resampling {
                resampler: ResamplerView {
                    next: self.feed.frame(channels),
                    have_next: true,
                    ..self.resampler
                },
                feed: self.feed.without_frame(channels),
            }
        }
    }

    /// The next frame becomes the current one, and the one after it the next.
    pub open spec fn shifted(self, phase: Float64) -> Resampling {
        Resampling {
            resampler: ResamplerView {
                current: self.resampler.next,
                have_current: true,
                have_next: false,
                phase,
                ..self.resampler
            },
            feed: self.feed,
        }.with_next()
    }

    /// The samples that are held or queued and not passed yet, the oldest first.
    pub open spec fn pending(self) -> Seq<Float32> {
        (if self.resampler.have_current {
            self.resampler.current
        } else {
            Seq::empty()
        }) + (if self.resampler.have_next {
            self.resampler.next
        } else {
            Seq::empty()
        }) + self.feed.queued
    }

    /// The state with both frames at hand, where that can be reached.
    pub open spec fn loaded(self) -> Resampling {
        self.started().with_current().with_next()
    }
}

/// `after` is `before` once `n` whole frames of the phase are passed, which are all that can be.
pub open spec fn passes<M: FloatMath>(before: Resampling, n: nat, after: Resampling) -> bool
    decreases n,
{
    if n == 0 {
        &&& after == before
        &&& call_ensures(M::has_whole_frame, (before.resampler.phase,), false)
            || !before.resampler.have_next
    } else {
        &&& before.resampler.have_next
        &&& call_ensures(M::has_whole_frame, (before.resampler.phase,), true)
        &&& exists|phase: Float64|
            {
                &&& #[trigger] call_ensures(
                    M::without_whole_frame,
                    (before.resampler.phase,),
                    phase,
                )
                &&& passes::<M>(before.shifted(phase), (n - 1) as nat, after)
            }
    }
}

/// Each sample of `frame` lies between those of the current and the next frame, as far along as
/// the phase says.
pub open spec fn is_interpolated<M: FloatMath>(r: ResamplerView, frame: Seq<Float32>) -> bool {
    &&& frame.len() == r.channels
    &&& forall|c: int|
        0 <= c < r.channels ==> call_ensures(
            M::interpolate,
            (r.current[c], r.next[c], r.phase),
            #[trigger] frame[c],
        )
}

/// `phase` is the loaded resampler's phase once it has moved on by one corrected step.
pub open spec fn is_advanced<M: FloatMath>(loaded: Resampling, phase: Float64) -> bool {
    let r = loaded.resampler;
    exists|correction: Float64|
        {
            &&& call_ensures(
                M::drift_correction,
                (
                    loaded.buffered_frames() as usize,
                    r.target_fill_frames,
                    r.control_span_frames,
                    r.max_drift_ratio,
                ),
                correction,
            )
            &&& #[trigger] call_ensures(
                M::advance_phase,
                (r.phase, r.nominal_step, correction),
                phase,
            )
        }
}

/// The loaded resampler with its output and its new phase.
pub open spec fn with_output(loaded: Resampling, frame: Seq<Float32>, phase: Float64) -> Resampling {
    Resampling {
        resampler: ResamplerView { interpolated: frame, phase, ..loaded.resampler },
        feed: loaded.feed,
    }
}

/// `after` is the loaded resampler once it has put out a frame and moved on.
pub open spec fn puts_out<M: FloatMath>(loaded: Resampling, after: Resampling) -> bool {
    exists|frame: Seq<Float32>, phase: Float64, n: nat, passed: Resampling|
        {
            &&& is_interpolated::<M>(loaded.resampler, frame)
            &&& is_advanced::<M>(loaded, phase)
            &&& #[trigger] passes::<M>(with_output(loaded, frame, phase), n, passed)
            &&& after == if passed.resampler.have_next {
                passed
            } else {
                passed.stopped()
            }
        }
}

/// What asking for a frame does: `ready` tells whether one was put out.
pub open spec fn steps<M: FloatMath>(before: Resampling, after: Resampling, ready: bool) -> bool {
    if before.waits() {
        after == before && !ready
    } else if !before.loaded().resampler.have_next {
        after == before.loaded().stopped() && !ready
    } else {
        ready && puts_out::<M>(before.loaded(), after)
    }
}

/// Resamples what a ring buffer holds.
pub struct RingResampler {
    consumer: Consumer,
    channels: usize,
    target_fill_frames: usize,
    priming_threshold_frames: usize,
    control_span_frames: usize,
    nominal_step: Float64,
    max_drift_ratio: Float64,
    current: Vec<Float32>,
    next: Vec<Float32>,
    interpolated: Vec<Float32>,
    phase: Float64,
    have_current: bool,
    have_next: bool,
    primed: bool,
    has_primed: bool,
}

impl View for RingResampler {
    type V = ResamplerView;

    closed spec fn view(&self) -> ResamplerView {
        ResamplerView {
            channels: self.channels as nat,
            target_fill_frames: self.target_fill_frames,
            priming_threshold_frames: self.priming_threshold_frames,
            control_span_frames: self.control_span_frames,
            nominal_step: self.nominal_step,
            max_drift_ratio: self.max_drift_ratio,
            current: self.current@,
            next: self.next@,
            interpolated: self.interpolated@,
            phase: self.phase,
            have_current: self.have_current,
            have_next: self.have_next,
            primed: self.primed,
            has_primed: self.has_primed,
        }
    }
}

impl RingResampler {
    /// The resampler with the feed of a stream.
    pub open spec fn with(self, state: PcmStreamState) -> Resampling {
        Resampling { resampler: self@, feed: state.feed() }
    }

    /// A resampler that holds no frame yet.
    pub fn new<M: FloatMath>(
        consumer: Consumer,
        channels: usize,
        target_fill_frames: usize,
        capacity_frames: usize,
        nominal_step: Float64,
        max_drift_ppm: u32,
    ) -> (resampler: Self)
        requires
            channels > 0,
            target_fill_frames <= capacity_frames,
        ensures
            resampler@.wf(),
            exists|ratio: Float64|
                #[trigger] call_ensures(M::parts_per_million, (max_drift_ppm,), ratio)
                    && resampler@ == ResamplerView::fresh(
                    channels as nat,
                    target_fill_frames,
                    capacity_frames,
                    nominal_step,
                    ratio,
                ),
    {
        let headroom: usize = capacity_frames - target_fill_frames;
        let max_drift_ratio = M::parts_per_million(max_drift_ppm);
        let resampler = RingResampler {
            consumer,
            channels,
            target_fill_frames,
            priming_threshold_frames: if target_fill_frames < 2 {
                2
            } else {
                target_fill_frames
            },
            control_span_frames: if target_fill_frames < headroom {
                target_fill_frames
            } else {
                headroom
            },
            nominal_step,
            max_drift_ratio,
            current: silence(channels),
            next: silence(channels),
            interpolated: silence(channels),
            phase: Float64::zero(),
            have_current: false,
            have_next: false,
            primed: false,
            has_primed: false,
        };
        assert(resampler@ == ResamplerView::fresh(
            channels as nat,
            target_fill_frames,
            capacity_frames,
            nominal_step,
            max_drift_ratio,
        ));
        resampler
    }

    /// The number of samples in a frame.
    pub fn channels(&self) -> (channels: usize)
        ensures
            channels == self@.channels,
    {
        self.channels
    }

    /// Tells whether frames are being put out.
    pub fn primed(&self) -> (primed: bool)
        ensures
            primed == self@.primed,
    {
        self.primed
    }

    /// Tells whether frames have ever been put out.
    pub fn has_primed(&self) -> (primed: bool)
        ensures
            primed == self@.has_primed,
    {
        self.has_primed
    }

    /// The frame that was put out last.
    pub fn interpolated(&self) -> (frame: &[Float32])
        ensures
            frame@ == self@.interpolated,
    {
        self.interpolated.as_slice()
    }

    /// Frames in the ring and frames that the resampler holds.
    pub fn buffered_frames(&self, state: &PcmStreamState) -> (frames: usize)
        requires
            self@.wf(),
        ensures
            frames == self.with(*state).buffered_frames(),
    {
        let available = self.consumer.available(&state.ring);
        proof {
            lemma_div_is_ordered_by_denominator(available as int, 1, self.channels as int);
            lemma_div_basics(available as int);
        }
        let mut frames: usize = available / self.channels;
        if self.have_current {
            frames = frames + 1;
        }
        if self.have_next {
            frames = frames + 1;
        }
        frames
    }

    /// The correction that what is buffered calls for.
    pub fn drift_correction<M: FloatMath>(&self, state: &PcmStreamState) -> (correction: Float64)
        requires
            self@.wf(),
        ensures
            call_ensures(
                M::drift_correction,
                (
                    self.with(*state).buffered_frames() as usize,
                    self@.target_fill_frames,
                    self@.control_span_frames,
                    self@.max_drift_ratio,
                ),
                correction,
            ),
    {
        M::drift_correction(
            self.buffered_frames(state),
            self.target_fill_frames,
            self.control_span_frames,
            self.max_drift_ratio,
        )
    }

    /// Takes the oldest frame of the ring as the current or the next one.
    fn pop_frame(&mut self, state: &mut PcmStreamState, next: bool) -> (popped: bool)
        requires
            old(self)@.wf(),
        ensures
            final(state).same_but_feed(*old(state)),
            popped == old(state).feed().has_frame(old(self)@.channels),
            final(state).feed() == if popped {
                old(state).feed().without_frame(old(self)@.channels)
            } else {
                old(state).feed()
            },
            final(self)@ == if !popped {
                old(self)@
            } else if next {
                ResamplerView {
                    next: old(state).feed().frame(old(self)@.channels),
                    ..old(self)@
                }
            } else {
                ResamplerView {
                    current: old(state).feed().frame(old(self)@.channels),
                    ..old(self)@
                }
            },
    {
        if self.consumer.available(&state.ring) < self.channels {
            return false;
        }
        if next {
            self.consumer.pop_slice(&mut state.ring, self.next.as_mut_slice());
        } else {
            self.consumer.pop_slice(&mut state.ring, self.current.as_mut_slice());
        }
        state.remove_fill(1);
        proof {
            let frame = old(state).feed().frame(old(self)@.channels);
            if next {
                assert(self.next@ =~= frame);
            } else {
                assert(self.current@ =~= frame);
            }
        }
        true
    }

    /// Gets both frames at hand.
    fn load(&mut self, state: &mut PcmStreamState) -> (loaded: bool)
        requires
            old(self)@.wf(),
        ensures
            final(self)@.wf(),
            final(self)@.channels == old(self)@.channels,
            final(state).same_but_feed(*old(state)),
            ({
                let before = old(self).with(*old(state));
                let after = final(self).with(*final(state));
                if before.waits() {
                    !loaded && after == before
                } else {
                    &&& loaded == before.loaded().resampler.have_next
                    &&& after == if loaded {
                        before.loaded()
                    } else {
                        before.loaded().stopped()
                    }
                }
            }),
    {
        let ghost before = self.with(*state);
        if !self.primed {
            if self.buffered_frames(state) < self.priming_threshold_frames {
                return false;
            }
            self.primed = true;
            self.has_primed = true;
        }
        assert(self.with(*state) =~= before.started());
        if !self.have_current {
            self.have_current = self.pop_frame(state, false);
            if !self.have_current {
                self.primed = false;
                assert(self.with(*state) =~= before.loaded().stopped());
                return false;
            }
        }
        assert(self.with(*state) =~= before.started().with_current());
        if !self.have_next {
            self.have_next = self.pop_frame(state, true);
            if !self.have_next {
                self.primed = false;
                assert(self.with(*state) =~= before.loaded().stopped());
                return false;
            }
        }
        assert(self.with(*state) =~= before.loaded());
        true
    }

    /// Puts the frame at the phase between the current and the next one.
    fn interpolate<M: FloatMath>(&mut self)
        requires
            old(self)@.wf(),
        ensures
            is_interpolated::<M>(old(self)@, final(self)@.interpolated),
            final(self)@ == (ResamplerView {
                interpolated: final(self)@.interpolated,
                ..old(self)@
            }),
    {
        let mut channel: usize = 0;
        while channel < self.channels
            invariant
                old(self)@.wf(),
                self@ == (ResamplerView { interpolated: self@.interpolated, ..old(self)@ }),
                self@.interpolated.len() == old(self)@.channels,
                channel <= old(self)@.channels,
                forall|c: int|
                    0 <= c < channel ==> call_ensures(
                        M::interpolate,
                        (old(self)@.current[c], old(self)@.next[c], old(self)@.phase),
                        #[trigger] self@.interpolated[c],
                    ),
            decreases old(self)@.channels - channel,
        {
            let sample = M::interpolate(self.current[channel], self.next[channel], self.phase);
            self.interpolated[channel] = sample;
            channel = channel + 1;
        }
    }

    /// Passes the whole frames of the phase, as far as there are frames.
    fn pass_whole_frames<M: FloatMath>(&mut self, state: &mut PcmStreamState)
        requires
            old(self)@.wf(),
        ensures
            final(self)@.wf(),
            final(self)@.channels == old(self)@.channels,
            final(state).same_but_feed(*old(state)),
            exists|n: nat|
                #[trigger] passes::<M>(
                    old(self).with(*old(state)),
                    n,
                    final(self).with(*final(state)),
                ),
    {
        let ghost before = self.with(*state);
        let ghost mut passed: nat = 0;
        let mut whole = M::has_whole_frame(self.phase);
        while whole && self.have_next
            invariant
                self@.wf(),
                self@.channels == old(self)@.channels,
                before == old(self).with(*old(state)),
                state.same_but_feed(*old(state)),
                call_ensures(M::has_whole_frame, (self@.phase,), whole),
                forall|n: nat, after: Resampling| #[trigger]
                    passes::<M>(self.with(*state), n, after) ==> passes::<M>(
                        before,
                        n + passed,
                        after,
                    ),
            decreases
                    state.ring@.len() + if self@.have_next {
                        1nat
                    } else {
                        0
                    },
        {
            let ghost here = self.with(*state);
            self.shift_frames();
            let phase = M::without_whole_frame(self.phase);
            self.phase = phase;
            self.have_next = self.pop_frame(state, true);
            whole = M::has_whole_frame(self.phase);
            proof {
                assert(self.with(*state) =~= here.shifted(phase));
                assert(call_ensures(M::without_whole_frame, (here.resampler.phase,), phase));
                assert forall|n: nat, after: Resampling| #[trigger]
                    passes::<M>(self.with(*state), n, after) implies passes::<M>(
                    before,
                    n + (passed + 1),
                    after,
                ) by {
                    assert(passes::<M>(here.shifted(phase), (n + 1 - 1) as nat, after));
                    assert(passes::<M>(here, n + 1, after));
                }
                passed = passed + 1;
            }
        }
        assert(passes::<M>(self.with(*state), 0, self.with(*state)));
    }

    /// Makes the next frame the current one.
    fn shift_frames(&mut self)
        requires
            old(self)@.wf(),
        ensures
            final(self)@ == (ResamplerView {
                current: old(self)@.next,
                have_current: true,
                have_next: false,
                ..old(self)@
            }),
    {
        let mut channel: usize = 0;
        while channel < self.channels
            invariant
                old(self)@.wf(),
                self@ == (ResamplerView { current: self@.current, ..old(self)@ }),
                self@.current.len() == old(self)@.channels,
                channel <= old(self)@.channels,
                forall|c: int| 0 <= c < channel ==> self@.current[c] == old(self)@.next[c],
            decreases old(self)@.channels - channel,
        {
            self.current[channel] = self.next[channel];
            channel = channel + 1;
        }
        assert(self@.current =~= old(self)@.next);
        self.have_current = true;
        self.have_next = false;
    }

    /// Puts out the next frame, where there is one.
    pub fn prepare_next_frame<M: FloatMath>(&mut self, state: &mut PcmStreamState) -> (ready: bool)
        requires
            old(self)@.wf(),
        ensures
            final(self)@.wf(),
            final(self)@.channels == old(self)@.channels,
            final(state).same_but_feed(*old(state)),
            steps::<M>(old(self).with(*old(state)), final(self).with(*final(state)), ready),
    {
        if !self.load(state) {
            return false;
        }
        let ghost loaded = self.with(*state);
        self.interpolate::<M>();
        let ghost frame = self@.interpolated;
        let correction = self.drift_correction::<M>(state);
        self.phase = M::advance_phase(self.phase, self.nominal_step, correction);
        proof {
            assert(is_advanced::<M>(loaded, self.phase)) by {
                assert(call_ensures(
                    M::advance_phase,
                    (loaded.resampler.phase, loaded.resampler.nominal_step, correction),
                    self.phase,
                ));
            }
            assert(self.with(*state) =~= with_output(loaded, frame, self.phase));
        }
        let ghost phase = self.phase;
        self.pass_whole_frames::<M>(state);
        let ghost passed = self.with(*state);
        if !self.have_next {
            self.primed = false;
        }
        proof {
            let n = choose|n: nat|
                #[trigger] passes::<M>(with_output(loaded, frame, phase), n, passed);
            assert(self.with(*state) =~= if passed.resampler.have_next {
                passed
            } else {
                passed.stopped()
            });
            assert(puts_out::<M>(loaded, self.with(*state)));
        }
        true
    }

    /// Puts out the next frame, where there is one.
    pub fn next_frame<M: FloatMath>(&mut self, state: &mut PcmStreamState) -> (frame: Option<
        &[Float32],
    >)
        requires
            old(self)@.wf(),
        ensures
            final(self)@.wf(),
            final(self)@.channels == old(self)@.channels,
            final(state).same_but_feed(*old(state)),
            steps::<M>(
                old(self).with(*old(state)),
                final(self).with(*final(state)),
                frame is Some,
            ),
            frame matches Some(frame) ==> frame@ == final(self)@.interpolated,
    {
        if self.prepare_next_frame::<M>(state) {
            Some(self.interpolated.as_slice())
        } else {
            None
        }
    }
}

/// Taking a frame keeps the count right.
proof fn lemma_frame_counted(feed: Feed, channels: nat)
    requires
        feed.counts(channels),
        feed.has_frame(channels),
        channels > 0,
    ensures
        feed.without_frame(channels).counts(channels),
{
    assert(feed.fill >= 1 && (feed.fill - 1) * channels == feed.fill * channels - channels)
        by (nonlinear_arith)
        requires
            feed.fill * channels >= channels,
            channels > 0,
    ;
}

/// Getting frames at hand loses nothing.
proof fn lemma_loaded(before: Resampling)
    requires
        before.resampler.wf(),
    ensures
        before.loaded().resampler.wf(),
        before.loaded().resampler.channels == before.resampler.channels,
        before.loaded().resampler.phase == before.resampler.phase,
        before.loaded().pending() == before.pending(),
        before.feed.counts(before.resampler.channels) ==> before.loaded().feed.counts(
            before.resampler.channels,
        ),
{
    let channels = before.resampler.channels;
    let first = before.started().with_current();
    let second = first.with_next();
    assert(first.pending() =~= before.pending());
    assert(second.pending() =~= first.pending());
    if before.feed.counts(channels) {
        if !before.resampler.have_current && before.feed.has_frame(channels) {
            lemma_frame_counted(before.feed, channels);
        }
        if !first.resampler.have_next && first.feed.has_frame(channels) {
            lemma_frame_counted(first.feed, channels);
        }
    }
}

/// Passing frames drops them from the front, one after the other.
#[verifier::spinoff_prover]
proof fn lemma_passes<M: FloatMath>(before: Resampling, n: nat, after: Resampling)
    requires
        before.resampler.wf(),
        passes::<M>(before, n, after),
    ensures
        after.resampler.wf(),
        after.resampler.channels == before.resampler.channels,
        after.resampler.interpolated == before.resampler.interpolated,
        n * before.resampler.channels <= before.pending().len(),
        after.pending() == before.pending().skip((n * before.resampler.channels) as int),
        before.feed.counts(before.resampler.channels) ==> after.feed.counts(
            before.resampler.channels,
        ),
    decreases n,
{
    let channels = before.resampler.channels;
    if n == 0 {
        assert(before.pending().skip(0) =~= before.pending());
    } else {
        let phase = choose|phase: Float64|
            {
                &&& #[trigger] call_ensures(
                    M::without_whole_frame,
                    (before.resampler.phase,),
                    phase,
                )
                &&& passes::<M>(before.shifted(phase), (n - 1) as nat, after)
            };
        let middle = before.shifted(phase);
        assert(middle.pending() =~= before.pending().skip(channels as int));
        if before.feed.counts(channels) && before.feed.has_frame(channels) {
            lemma_frame_counted(before.feed, channels);
        }
        assert(middle.pending().len() == before.pending().len() - channels);
        lemma_passes::<M>(middle, (n - 1) as nat, after);
        let passed: nat = ((n - 1) as nat) * channels;
        assert(passed <= middle.pending().len());
        assert(n * channels == passed + channels) by (nonlinear_arith)
            requires
                n >= 1,
                passed == (n - 1) * channels,
        ;
        assert(n * channels <= before.pending().len());
        assert(after.pending() =~= before.pending().skip((n * channels) as int));
    }
}

/// While too little is buffered to start, asking for a frame consumes nothing.
pub proof fn waiting_consumes_nothing<M: FloatMath>(
    before: Resampling,
    after: Resampling,
    ready: bool,
)
    requires
        before.waits(),
        steps::<M>(before, after, ready),
    ensures
        !ready,
        after == before,
{
}

/// A resampler that is not playing puts a frame out exactly where the desired number of frames is
/// buffered, and no fewer than two. Until then nothing is consumed.
pub proof fn playing_starts_at_the_desired_fill<M: FloatMath>(
    before: Resampling,
    after: Resampling,
    ready: bool,
)
    requires
        before.resampler.wf(),
        !before.resampler.primed,
        steps::<M>(before, after, ready),
    ensures
        ready == (before.buffered_frames() >= 2 && before.buffered_frames()
            >= before.resampler.target_fill_frames),
        !ready ==> after == before,
{
    if !before.waits() {
        let channels = before.resampler.channels as int;
        let length = before.feed.queued.len() as int;
        lemma_fundamental_div_mod(length, channels);
        lemma_mod_bound(length, channels);
        lemma_mul_is_commutative(channels, length / channels);
        if !before.resampler.have_current {
            lemma_mul_inequality(2, length / channels, channels);
        } else if !before.resampler.have_next {
            lemma_mul_inequality(1, length / channels, channels);
        }
    }
}

/// Frames are used in the order in which they were queued: a frame that is put out lies between
/// the two oldest ones, and only whole frames at the front are dropped, none of them where no frame
/// is put out.
pub proof fn frames_are_used_in_order<M: FloatMath>(
    before: Resampling,
    after: Resampling,
    ready: bool,
)
    requires
        before.resampler.wf(),
        steps::<M>(before, after, ready),
    ensures
        !ready ==> after.pending() == before.pending(),
        ready ==> exists|n: nat|
            {
                &&& n * before.resampler.channels <= before.pending().len()
                &&& after.pending() == #[trigger] before.pending().skip(
                    (n * before.resampler.channels) as int,
                )
            },
        ready ==> {
            let channels = before.resampler.channels as int;
            &&& 2 * channels <= before.pending().len()
            &&& is_interpolated::<M>(
                ResamplerView {
                    current: before.pending().take(channels),
                    next: before.pending().subrange(channels, 2 * channels),
                    ..before.resampler
                },
                after.resampler.interpolated,
            )
        },
{
    let loaded = before.loaded();
    lemma_loaded(before);
    if ready {
        let channels = before.resampler.channels as int;
        let (frame, phase, n, passed) = choose|
            frame: Seq<Float32>,
            phase: Float64,
            n: nat,
            passed: Resampling,
        |
            {
                &&& is_interpolated::<M>(loaded.resampler, frame)
                &&& is_advanced::<M>(loaded, phase)
                &&& #[trigger] passes::<M>(with_output(loaded, frame, phase), n, passed)
                &&& after == if passed.resampler.have_next {
                    passed
                } else {
                    passed.stopped()
                }
            };
        let out = with_output(loaded, frame, phase);
        assert(out.pending() =~= loaded.pending());
        lemma_passes::<M>(out, n, passed);
        assert(passed.stopped().pending() =~= passed.pending());
        assert(after.pending() == before.pending().skip((n * before.resampler.channels) as int));
        assert(loaded.resampler.current =~= before.pending().take(channels));
        assert(loaded.resampler.next =~= before.pending().subrange(channels, 2 * channels));
    } else {
        assert(loaded.stopped().pending() =~= loaded.pending());
    }
}

/// The count of queued frames stays the number of frames in the ring.
pub proof fn fill_follows_the_ring<M: FloatMath>(
    before: Resampling,
    after: Resampling,
    ready: bool,
)
    requires
        before.resampler.wf(),
        before.feed.counts(before.resampler.channels),
        steps::<M>(before, after, ready),
    ensures
        after.feed.counts(before.resampler.channels),
{
    let loaded = before.loaded();
    lemma_loaded(before);
    if ready {
        let (frame, phase, n, passed) = choose|
            frame: Seq<Float32>,
            phase: Float64,
            n: nat,
            passed: Resampling,
        |
            {
                &&& is_interpolated::<M>(loaded.resampler, frame)
                &&& is_advanced::<M>(loaded, phase)
                &&& #[trigger] passes::<M>(with_output(loaded, frame, phase), n, passed)
                &&& after == if passed.resampler.have_next {
                    passed
                } else {
                    passed.stopped()
                }
            };
        lemma_passes::<M>(with_output(loaded, frame, phase), n, passed);
    }
}

} // verus!
