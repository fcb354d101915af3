//! What a device's callback does: queue what was recorded, and mix what is to be played.
use vstd::prelude::*;
use crate::buffers;
use crate::buffers::{
    add_audio_sample, audio_buffer_list_frames, clear_audio_buffer_list, read_audio_sample,
    AudioBuffer,
};
use crate::float::{Float32, FloatMath};
use crate::incoming;
use crate::incoming::{IncomingView, Playing};
use crate::matrix;
use crate::ring::RingBuffer;
use crate::router::{DeviceIo, IncomingSlot, OutgoingRoute, RouterMetrics};

verus! {

impl DeviceIo {
    /// Every route has its ring, and every sink end is whole.
    pub open spec fn wf(self, rings: nat) -> bool {
        &&& forall|k: int|
            0 <= k < self.outgoing@.len() ==> (#[trigger] self.outgoing@[k]).ring < rings
        &&& forall|k: int|
            0 <= k < self.incoming@.len() ==> (#[trigger] self.incoming@[k]).ring < rings
                && self.incoming@[k].route@.wf()
    }
}

/// The samples that wait in the rings.
pub open spec fn queues(rings: Seq<RingBuffer>) -> Seq<Seq<Float32>> {
    rings.map_values(|ring: RingBuffer| ring@)
}

/// The numbers of samples that fit in the rings.
pub open spec fn capacities(rings: Seq<RingBuffer>) -> Seq<nat> {
    rings.map_values(|ring: RingBuffer| ring.capacity())
}

/// What is queued and counted while recorded frames are taken in.
#[verifier::ext_equal]
pub struct Intake {
    pub queues: Seq<Seq<Float32>>,
    pub metrics: RouterMetrics,
    pub stopped: bool,
}

/// The samples of the first `n` channels of a frame, up to the first channel that is not there.
pub open spec fn frame_samples(list: Seq<AudioBuffer>, frame: int, n: nat) -> Seq<Float32>
    decreases n,
{
    if n == 0 {
        Seq::empty()
    } else {
        let before = frame_samples(list, frame, (n - 1) as nat);
        match buffers::sample_place(list, frame, n - 1) {
            Some((buffer, at)) => if before.len() == n - 1 {
                before.push(list[buffer].samples@[at])
            } else {
                before
            },
            None => before,
        }
    }
}

/// A frame is taken in for one route: it is queued where it fits and counted as an overrun where
/// it does not. A channel that is not there is a format error, which ends the intake.
pub open spec fn take_frame(
    intake: Intake,
    capacities: Seq<nat>,
    route: OutgoingRoute,
    list: Seq<AudioBuffer>,
    frame: int,
) -> Intake {
    let ring = route.ring as int;
    let samples = frame_samples(list, frame, route.channels as nat);
    if intake.stopped {
        intake
    } else if capacities[ring] - intake.queues[ring].len() < route.channels {
        Intake {
            metrics: RouterMetrics {
                overruns: intake.metrics.overruns.wrapping_add(1),
                ..intake.metrics
            },
            ..intake
        }
    } else if samples.len() < route.channels {
        Intake {
            queues: intake.queues.update(ring, intake.queues[ring] + samples),
            metrics: RouterMetrics {
                format_errors: intake.metrics.format_errors.wrapping_add(1),
                ..intake.metrics
            },
            stopped: true,
        }
    } else {
        Intake { queues: intake.queues.update(ring, intake.queues[ring] + samples), ..intake }
    }
}

/// A frame is taken in for the first `n` routes.
pub open spec fn take_frame_for(
    intake: Intake,
    capacities: Seq<nat>,
    routes: Seq<OutgoingRoute>,
    list: Seq<AudioBuffer>,
    frame: int,
    n: nat,
) -> Intake
    decreases n,
{
    if n == 0 {
        intake
    } else {
        take_frame(
            take_frame_for(intake, capacities, routes, list, frame, (n - 1) as nat),
            capacities,
            routes[n - 1],
            list,
            frame,
        )
    }
}

/// The first `n` frames are taken in for all routes.
pub open spec fn take_frames(
    intake: Intake,
    capacities: Seq<nat>,
    routes: Seq<OutgoingRoute>,
    list: Seq<AudioBuffer>,
    n: nat,
) -> Intake
    decreases n,
{
    if n == 0 {
        intake
    } else {
        take_frame_for(
            take_frames(intake, capacities, routes, list, (n - 1) as nat),
            capacities,
            routes,
            list,
            n - 1,
            routes.len(),
        )
    }
}

/// What the recorded buffers do to the queues and counters.
pub open spec fn taken_in(
    intake: Intake,
    capacities: Seq<nat>,
    routes: Seq<OutgoingRoute>,
    list: Seq<AudioBuffer>,
) -> Intake {
    match buffers::list_frames(list) {
        Some(frames) => take_frames(intake, capacities, routes, list, frames as nat),
        None => Intake {
            metrics: RouterMetrics {
                format_errors: intake.metrics.format_errors.wrapping_add(1),
                ..intake.metrics
            },
            stopped: true,
            ..intake
        },
    }
}

/// The frame's samples stop at the first channel that is not there.
proof fn lemma_frame_samples(list: Seq<AudioBuffer>, frame: int, n: nat, missing: nat)
    requires
        missing < n,
        frame_samples(list, frame, missing).len() == missing,
        buffers::sample_place(list, frame, missing as int) is None,
    ensures
        frame_samples(list, frame, n) == frame_samples(list, frame, missing),
    decreases n,
{
    if missing < n - 1 {
        lemma_frame_samples(list, frame, (n - 1) as nat, missing);
    }
}

/// Once stopped, the intake changes no more.
proof fn lemma_stopped_frame(
    intake: Intake,
    capacities: Seq<nat>,
    routes: Seq<OutgoingRoute>,
    list: Seq<AudioBuffer>,
    frame: int,
    n: nat,
    m: nat,
)
    requires
        n <= m,
        take_frame_for(intake, capacities, routes, list, frame, n).stopped,
    ensures
        take_frame_for(intake, capacities, routes, list, frame, m) == take_frame_for(
            intake,
            capacities,
            routes,
            list,
            frame,
            n,
        ),
    decreases m,
{
    if n < m {
        lemma_stopped_frame(intake, capacities, routes, list, frame, n, (m - 1) as nat);
    }
}

/// Once stopped, the intake changes no more.
proof fn lemma_stopped(
    intake: Intake,
    capacities: Seq<nat>,
    routes: Seq<OutgoingRoute>,
    list: Seq<AudioBuffer>,
    n: nat,
    m: nat,
)
    requires
        n <= m,
        take_frames(intake, capacities, routes, list, n).stopped,
    ensures
        take_frames(intake, capacities, routes, list, m) == take_frames(
            intake,
            capacities,
            routes,
            list,
            n,
        ),
    decreases m,
{
    if n < m {
        lemma_stopped(intake, capacities, routes, list, n, (m - 1) as nat);
        lemma_stopped_frame(
            take_frames(intake, capacities, routes, list, (m - 1) as nat),
            capacities,
            routes,
            list,
            m - 1,
            0,
            routes.len(),
        );
    }
}

/// Takes a frame in for one route.
fn feed_route(
    route: &mut OutgoingRoute,
    rings: &mut Vec<RingBuffer>,
    metrics: &mut RouterMetrics,
    list: &Vec<AudioBuffer>,
    frame: usize,
) -> (stopped: bool)
    requires
        old(route).ring < old(rings)@.len(),
    ensures
        *final(route) == *old(route),
        capacities(final(rings)@) == capacities(old(rings)@),
        (Intake { queues: queues(final(rings)@), metrics: *final(metrics), stopped }) == take_frame(
            Intake { queues: queues(old(rings)@), metrics: *old(metrics), stopped: false },
            capacities(old(rings)@),
            *old(route),
            list@,
            frame as int,
        ),
{
    let ring = route.ring;
    let ghost before = Intake { queues: queues(rings@), metrics: *metrics, stopped: false };
    let ghost caps = capacities(rings@);
    if route.producer.available(&rings[ring]) < route.channels {
        metrics.overruns = metrics.overruns.wrapping_add(1);
        return false;
    }
    let mut channel: usize = 0;
    assert(queues(rings@) =~= before.queues.update(
        ring as int,
        before.queues[ring as int] + frame_samples(list@, frame as int, 0),
    ));
    while channel < route.channels
        invariant
            *route == *old(route),
            ring == route.ring,
            ring < rings@.len(),
            channel <= route.channels,
            *metrics == *old(metrics),
            before == (Intake {
                queues: queues(old(rings)@),
                metrics: *old(metrics),
                stopped: false,
            }),
            caps == capacities(old(rings)@),
            rings@.len() == old(rings)@.len(),
            caps[ring as int] - before.queues[ring as int].len() >= route.channels,
            capacities(rings@) == caps,
            frame_samples(list@, frame as int, channel as nat).len() == channel,
            queues(rings@) == before.queues.update(
                ring as int,
                before.queues[ring as int] + frame_samples(list@, frame as int, channel as nat),
            ),
        decreases route.channels - channel,
    {
        match read_audio_sample(list, frame, channel) {
            Some(sample) => {
                let ghost held = rings@;
                let ghost queued = queues(rings@)[ring as int];
                assert(rings@[ring as int].capacity() == capacities(rings@)[ring as int]);
                let pushed = route.producer.push(&mut rings[ring], sample);
                channel = channel + 1;
                proof {
                    assert(queues(rings@)[ring as int] == queued.push(sample));
                    assert forall|i: int| 0 <= i < rings@.len() && i != ring implies queues(
                        rings@,
                    )[i] == #[trigger] before.queues[i] by {
                        assert(rings@[i] == held[i]);
                        assert(queues(held)[i] == before.queues[i]);
                    }
                    assert(queued.push(sample) =~= before.queues[ring as int] + frame_samples(
                        list@,
                        frame as int,
                        channel as nat,
                    ));
                    assert(queues(rings@) =~= before.queues.update(
                        ring as int,
                        before.queues[ring as int] + frame_samples(
                            list@,
                            frame as int,
                            channel as nat,
                        ),
                    ));
                    assert(capacities(rings@) =~= caps);
                }
            },
            None => {
                proof {
                    lemma_frame_samples(
                        list@,
                        frame as int,
                        route.channels as nat,
                        channel as nat,
                    );
                }
                metrics.format_errors = metrics.format_errors.wrapping_add(1);
                return true;
            },
        }
    }
    false
}

impl DeviceIo {
    /// Takes the recorded frames in for the routes that leave the device. What comes back tells
    /// whether a format error ended the intake.
    pub fn feed_outgoing(
        &mut self,
        rings: &mut Vec<RingBuffer>,
        metrics: &mut RouterMetrics,
        list: &Vec<AudioBuffer>,
    ) -> (stopped: bool)
        requires
            old(self).wf(old(rings)@.len()),
        ensures
            final(self).device_id == old(self).device_id,
            final(self).outgoing@ == old(self).outgoing@,
            final(self).incoming == old(self).incoming,
            final(rings)@.len() == old(rings)@.len(),
            capacities(final(rings)@) == capacities(old(rings)@),
            (Intake { queues: queues(final(rings)@), metrics: *final(metrics), stopped })
                == taken_in(
                Intake { queues: queues(old(rings)@), metrics: *old(metrics), stopped: false },
                capacities(old(rings)@),
                old(self).outgoing@,
                list@,
            ),
    {
        let frames = match audio_buffer_list_frames(list) {
            Some(frames) => frames,
            None => {
                metrics.format_errors = metrics.format_errors.wrapping_add(1);
                return true;
            },
        };
        let ghost start = Intake { queues: queues(rings@), metrics: *metrics, stopped: false };
        let ghost caps = capacities(rings@);
        let ghost routes = self.outgoing@;
        let mut frame: usize = 0;
        while frame < frames
            invariant
                frame <= frames,
                self.device_id == old(self).device_id,
                self.outgoing@ == routes,
                routes == old(self).outgoing@,
                self.incoming == old(self).incoming,
                old(self).wf(old(rings)@.len()),
                rings@.len() == old(rings)@.len(),
                caps == capacities(old(rings)@),
                capacities(rings@) == caps,
                start == (Intake {
                    queues: queues(old(rings)@),
                    metrics: *old(metrics),
                    stopped: false,
                }),
                buffers::list_frames(list@) == Some(frames as int),
                (Intake { queues: queues(rings@), metrics: *metrics, stopped: false })
                    == take_frames(start, caps, routes, list@, frame as nat),
            decreases frames - frame,
        {
            let ghost here = Intake { queues: queues(rings@), metrics: *metrics, stopped: false };
            let mut k: usize = 0;
            while k < self.outgoing.len()
                invariant
                    k <= self.outgoing@.len(),
                    frame < frames,
                    self.device_id == old(self).device_id,
                    self.outgoing@ == routes,
                    routes == old(self).outgoing@,
                    self.incoming == old(self).incoming,
                    old(self).wf(old(rings)@.len()),
                    rings@.len() == old(rings)@.len(),
                    caps == capacities(old(rings)@),
                    capacities(rings@) == caps,
                    start == (Intake {
                        queues: queues(old(rings)@),
                        metrics: *old(metrics),
                        stopped: false,
                    }),
                    buffers::list_frames(list@) == Some(frames as int),
                    here == take_frames(start, caps, routes, list@, frame as nat),
                    (Intake { queues: queues(rings@), metrics: *metrics, stopped: false })
                        == take_frame_for(here, caps, routes, list@, frame as int, k as nat),
                decreases self.outgoing.len() - k,
            {
                assert(self.outgoing@[k as int].ring < rings@.len());
                let stopped = feed_route(&mut self.outgoing[k], rings, metrics, list, frame);
                assert(self.outgoing@ =~= routes);
                k = k + 1;
                if stopped {
                    proof {
                        assert(rings@.len() == capacities(rings@).len());
                        lemma_stopped_frame(
                            here,
                            caps,
                            routes,
                            list@,
                            frame as int,
                            k as nat,
                            routes.len(),
                        );
                        lemma_stopped(
                            start,
                            caps,
                            routes,
                            list@,
                            (frame + 1) as nat,
                            frames as nat,
                        );
                    }
                    return true;
                }
                assert(rings@.len() == capacities(rings@).len());
            }
            frame = frame + 1;
        }
        false
    }
}

/// A route that plays, what is queued for it, the counters, and the samples that are played.
#[verifier::ext_equal]
pub struct Voice {
    pub route: IncomingView,
    pub queued: Seq<Float32>,
    pub metrics: RouterMetrics,
    pub samples: Seq<Seq<Float32>>,
    pub stopped: bool,
}

/// `after` is `before` with the first `n` sink channels of the route's frame mixed in.
pub open spec fn mixes<M: FloatMath>(
    route: IncomingView,
    layout: Seq<AudioBuffer>,
    frame: int,
    n: nat,
    before: Seq<Seq<Float32>>,
    after: Seq<Seq<Float32>>,
) -> bool
    decreases n,
{
    if n == 0 {
        after == before
    } else {
        &&& buffers::sample_place(layout, frame, n - 1) is Some
        &&& exists|middle: Seq<Seq<Float32>>, mixed: Float32|
            {
                &&& mixes::<M>(route, layout, frame, (n - 1) as nat, before, middle)
                &&& matrix::is_mixed::<M>(
                    route.row(n - 1),
                    route.interpolated,
                    route.gain,
                    mixed,
                )
                &&& #[trigger] buffers::is_added::<M>(
                    middle,
                    buffers::sample_place(layout, frame, n - 1)->0,
                    mixed,
                    after,
                )
            }
    }
}

impl Voice {
    /// The route with its queue and the counted underruns.
    pub open spec fn playing(self) -> Playing {
        Playing {
            route: self.route,
            queued: self.queued,
            underruns: self.metrics.underruns,
        }
    }

    /// The voice once the route has turned.
    pub open spec fn turned(self, next: Playing) -> Voice {
        Voice {
            route: next.route,
            queued: next.queued,
            metrics: RouterMetrics { underruns: next.underruns, ..self.metrics },
            ..self
        }
    }

    /// The voice with other samples played.
    pub open spec fn with_samples(self, samples: Seq<Seq<Float32>>) -> Voice {
        Voice { samples, ..self }
    }

    /// A channel was not there: a format error, which ends the playing.
    pub open spec fn broken(self) -> Voice {
        Voice {
            metrics: RouterMetrics {
                format_errors: self.metrics.format_errors.wrapping_add(1),
                ..self.metrics
            },
            stopped: true,
            ..self
        }
    }
}

/// The turned voice mixes its frame in, up to the first channel that is not there.
pub open spec fn mixes_in<M: FloatMath>(
    layout: Seq<AudioBuffer>,
    frame: int,
    turned: Voice,
    after: Voice,
) -> bool {
    exists|n: nat, samples: Seq<Seq<Float32>>|
        {
            &&& #[trigger] mixes::<M>(turned.route, layout, frame, n, turned.samples, samples)
            &&& n <= turned.route.sink_channels
            &&& if n == turned.route.sink_channels {
                after == turned.with_samples(samples)
            } else {
                &&& buffers::sample_place(layout, frame, n as int) is None
                &&& after == turned.with_samples(samples).broken()
            }
        }
}

/// `after` is `before` once the route has played one frame, or has found that there is none.
pub open spec fn plays_frame<M: FloatMath>(
    layout: Seq<AudioBuffer>,
    frame: int,
    before: Voice,
    after: Voice,
) -> bool {
    if before.stopped {
        after == before
    } else {
        exists|next: Playing, ready: bool|
            {
                &&& #[trigger] incoming::turns::<M>(before.playing(), next, ready)
                &&& if ready {
                    mixes_in::<M>(layout, frame, before.turned(next), after)
                } else {
                    after == before.turned(next)
                }
            }
    }
}

/// `after` is `before` once the route has played the first `n` frames.
pub open spec fn plays_frames<M: FloatMath>(
    layout: Seq<AudioBuffer>,
    n: nat,
    before: Voice,
    after: Voice,
) -> bool
    decreases n,
{
    if n == 0 {
        after == before
    } else {
        exists|middle: Voice|
            {
                &&& plays_frames::<M>(layout, (n - 1) as nat, before, middle)
                &&& #[trigger] plays_frame::<M>(layout, n - 1, middle, after)
            }
    }
}

/// All routes that play, what is queued, the counters, and the samples that are played.
#[verifier::ext_equal]
pub struct Mixdown {
    pub routes: Seq<IncomingView>,
    pub queues: Seq<Seq<Float32>>,
    pub metrics: RouterMetrics,
    pub samples: Seq<Seq<Float32>>,
    pub stopped: bool,
}

impl Mixdown {
    /// The route with index `k`, which is queued in ring `ring`.
    pub open spec fn voice(self, k: int, ring: int) -> Voice {
        Voice {
            route: self.routes[k],
            queued: self.queues[ring],
            metrics: self.metrics,
            samples: self.samples,
            stopped: self.stopped,
        }
    }

    /// The mixdown once that route has played.
    pub open spec fn with_voice(self, k: int, ring: int, voice: Voice) -> Mixdown {
        Mixdown {
            routes: self.routes.update(k, voice.route),
            queues: self.queues.update(ring, voice.queued),
            metrics: voice.metrics,
            samples: voice.samples,
            stopped: voice.stopped,
        }
    }
}

/// `after` is `before` once one route has played all frames, unless playing has ended.
pub open spec fn plays_route<M: FloatMath>(
    layout: Seq<AudioBuffer>,
    frames: nat,
    k: int,
    ring: int,
    before: Mixdown,
    after: Mixdown,
) -> bool {
    if before.stopped {
        after == before
    } else {
        exists|voice: Voice|
            #[trigger] plays_frames::<M>(layout, frames, before.voice(k, ring), voice) && after
                == before.with_voice(k, ring, voice)
    }
}

/// `after` is `before` once the first `n` routes have played, one after the other.
pub open spec fn plays_routes<M: FloatMath>(
    layout: Seq<AudioBuffer>,
    frames: nat,
    rings: Seq<usize>,
    n: nat,
    before: Mixdown,
    after: Mixdown,
) -> bool
    decreases n,
{
    if n == 0 {
        after == before
    } else {
        exists|middle: Mixdown|
            {
                &&& plays_routes::<M>(layout, frames, rings, (n - 1) as nat, before, middle)
                &&& #[trigger] plays_route::<M>(
                    layout,
                    frames,
                    n - 1,
                    rings[n - 1] as int,
                    middle,
                    after,
                )
            }
    }
}

/// The sink ends by their values.
pub open spec fn sink_views(slots: Seq<IncomingSlot>) -> Seq<IncomingView> {
    slots.map_values(|slot: IncomingSlot| slot.route@)
}

/// The rings that the sink ends draw on.
pub open spec fn sink_rings(slots: Seq<IncomingSlot>) -> Seq<usize> {
    slots.map_values(|slot: IncomingSlot| slot.ring)
}

/// What playing into the buffers does.
pub open spec fn plays_out<M: FloatMath>(
    list: Seq<AudioBuffer>,
    rings: Seq<usize>,
    before: Mixdown,
    after: Mixdown,
) -> bool {
    match buffers::list_frames(list) {
        Some(frames) => plays_routes::<M>(
            list,
            frames as nat,
            rings,
            rings.len(),
            Mixdown { samples: buffers::silenced(before.samples), ..before },
            after,
        ),
        None => after == Mixdown {
            metrics: RouterMetrics {
                format_errors: before.metrics.format_errors.wrapping_add(1),
                ..before.metrics
            },
            stopped: true,
            ..before
        },
    }
}

/// A sink end with its ring, the counters and the buffers.
spec fn voice_of(
    slot: IncomingSlot,
    ring: RingBuffer,
    metrics: RouterMetrics,
    list: Seq<AudioBuffer>,
    stopped: bool,
) -> Voice {
    Voice {
        route: slot.route@,
        queued: ring@,
        metrics,
        samples: buffers::contents(list),
        stopped,
    }
}

/// Plays one frame of a route. What comes back tells whether a channel was not there.
fn play_frame<M: FloatMath>(
    slot: &mut IncomingSlot,
    ring: &mut RingBuffer,
    metrics: &mut RouterMetrics,
    list: &mut Vec<AudioBuffer>,
    frame: usize,
    Ghost(layout): Ghost<Seq<AudioBuffer>>,
) -> (stopped: bool)
    requires
        old(slot).route@.wf(),
        buffers::same_layout(old(list)@, layout),
    ensures
        final(slot).route@.wf(),
        final(slot).ring == old(slot).ring,
        final(ring).capacity() == old(ring).capacity(),
        buffers::same_layout(final(list)@, layout),
        plays_frame::<M>(
            layout,
            frame as int,
            voice_of(*old(slot), *old(ring), *old(metrics), old(list)@, false),
            voice_of(*final(slot), *final(ring), *final(metrics), final(list)@, stopped),
        ),
{
    let ghost before = voice_of(*slot, *ring, *metrics, list@, false);
    let ready = slot.route.prepare_output_frame::<M>(ring, &mut metrics.underruns);
    let ghost next = slot.route.with(*ring, metrics.underruns);
    let ghost turned = voice_of(*slot, *ring, *metrics, list@, false);
    proof {
        assert(incoming::turns::<M>(before.playing(), next, ready));
        assert(turned =~= before.turned(next));
    }
    if !ready {
        return false;
    }
    let channels: usize = slot.route.sink_channels();
    let mut channel: usize = 0;
    while channel < channels
        invariant
            slot.route@.wf(),
            slot.route@ == turned.route,
            slot.ring == old(slot).ring,
            ring.capacity() == old(ring).capacity(),
            channels == turned.route.sink_channels,
            channel <= channels,
            buffers::same_layout(list@, layout),
            turned == before.turned(next),
            before == voice_of(*old(slot), *old(ring), *old(metrics), old(list)@, false),
            incoming::turns::<M>(before.playing(), next, true),
            voice_of(*slot, *ring, *metrics, list@, false) == turned.with_samples(
                buffers::contents(list@),
            ),
            mixes::<M>(
                turned.route,
                layout,
                frame as int,
                channel as nat,
                turned.samples,
                buffers::contents(list@),
            ),
        decreases channels - channel,
    {
        let ghost middle = buffers::contents(list@);
        let ghost held = list@;
        let mixed = slot.route.mixed_sample::<M>(channel);
        let added = add_audio_sample::<M>(list, frame, channel, mixed);
        proof {
            lemma_layout_chain(list@, held, layout);
            buffers::lemma_same_places(held, layout, frame as int, channel as int);
        }
        if !added {
            metrics.format_errors = metrics.format_errors.wrapping_add(1);
            proof {
                let after = voice_of(*slot, *ring, *metrics, list@, true);
                assert(after =~= turned.with_samples(middle).broken());
                assert(mixes_in::<M>(layout, frame as int, turned, after));
            }
            return true;
        }
        proof {
            let n = (channel + 1) as nat;
            assert(buffers::is_added::<M>(
                middle,
                buffers::sample_place(layout, frame as int, n - 1)->0,
                mixed,
                buffers::contents(list@),
            ));
            assert(mixes::<M>(
                turned.route,
                layout,
                frame as int,
                n,
                turned.samples,
                buffers::contents(list@),
            ));
        }
        channel = channel + 1;
    }
    proof {
        let after = voice_of(*slot, *ring, *metrics, list@, false);
        assert(mixes_in::<M>(layout, frame as int, turned, after));
    }
    false
}

/// Lists with the layout of a list have its layout.
proof fn lemma_layout_chain(a: Seq<AudioBuffer>, b: Seq<AudioBuffer>, c: Seq<AudioBuffer>)
    requires
        buffers::same_layout(a, b),
        buffers::same_layout(b, c),
    ensures
        buffers::same_layout(a, c),
{
    assert forall|i: int| 0 <= i < a.len() implies {
        &&& (#[trigger] a[i]).number_channels == c[i].number_channels
        &&& a[i].data_byte_size == c[i].data_byte_size
        &&& a[i].has_data == c[i].has_data
        &&& a[i].samples@.len() == c[i].samples@.len()
    } by {
        assert(b[i].number_channels == c[i].number_channels);
    }
}

/// Once playing has ended, further frames change nothing.
proof fn lemma_ended<M: FloatMath>(
    layout: Seq<AudioBuffer>,
    n: nat,
    m: nat,
    before: Voice,
    after: Voice,
)
    requires
        n <= m,
        after.stopped,
        plays_frames::<M>(layout, n, before, after),
    ensures
        plays_frames::<M>(layout, m, before, after),
    decreases m,
{
    if n < m {
        lemma_ended::<M>(layout, n, (m - 1) as nat, before, after);
        assert(plays_frame::<M>(layout, m - 1, after, after));
    }
}

/// Plays all frames of a route. What comes back tells whether a channel was not there.
fn play_frames<M: FloatMath>(
    slot: &mut IncomingSlot,
    ring: &mut RingBuffer,
    metrics: &mut RouterMetrics,
    list: &mut Vec<AudioBuffer>,
    frames: usize,
    Ghost(layout): Ghost<Seq<AudioBuffer>>,
) -> (stopped: bool)
    requires
        old(slot).route@.wf(),
        buffers::same_layout(old(list)@, layout),
    ensures
        final(slot).route@.wf(),
        final(slot).ring == old(slot).ring,
        final(ring).capacity() == old(ring).capacity(),
        buffers::same_layout(final(list)@, layout),
        plays_frames::<M>(
            layout,
            frames as nat,
            voice_of(*old(slot), *old(ring), *old(metrics), old(list)@, false),
            voice_of(*final(slot), *final(ring), *final(metrics), final(list)@, stopped),
        ),
{
    let ghost before = voice_of(*slot, *ring, *metrics, list@, false);
    let mut frame: usize = 0;
    while frame < frames
        invariant
            frame <= frames,
            slot.route@.wf(),
            slot.ring == old(slot).ring,
            ring.capacity() == old(ring).capacity(),
            buffers::same_layout(list@, layout),
            before == voice_of(*old(slot), *old(ring), *old(metrics), old(list)@, false),
            plays_frames::<M>(
                layout,
                frame as nat,
                before,
                voice_of(*slot, *ring, *metrics, list@, false),
            ),
        decreases frames - frame,
    {
        let ghost middle = voice_of(*slot, *ring, *metrics, list@, false);
        let stopped = play_frame::<M>(slot, ring, metrics, list, frame, Ghost(layout));
        frame = frame + 1;
        proof {
            let after = voice_of(*slot, *ring, *metrics, list@, stopped);
            assert(plays_frame::<M>(layout, frame - 1, middle, after));
            assert(plays_frames::<M>(layout, frame as nat, before, after));
            if stopped {
                lemma_ended::<M>(layout, frame as nat, frames as nat, before, after);
            }
        }
        if stopped {
            return true;
        }
    }
    false
}

/// Once playing has ended, further routes change nothing.
proof fn lemma_all_ended<M: FloatMath>(
    layout: Seq<AudioBuffer>,
    frames: nat,
    rings: Seq<usize>,
    n: nat,
    m: nat,
    before: Mixdown,
    after: Mixdown,
)
    requires
        n <= m,
        after.stopped,
        plays_routes::<M>(layout, frames, rings, n, before, after),
    ensures
        plays_routes::<M>(layout, frames, rings, m, before, after),
    decreases m,
{
    if n < m {
        lemma_all_ended::<M>(layout, frames, rings, n, (m - 1) as nat, before, after);
        assert(plays_route::<M>(layout, frames, m - 1, rings[m - 1] as int, after, after));
    }
}

/// The sink ends of a context with the rings, the counters and the buffers.
pub open spec fn mixdown(
    slots: Seq<IncomingSlot>,
    rings: Seq<RingBuffer>,
    metrics: RouterMetrics,
    list: Seq<AudioBuffer>,
    stopped: bool,
) -> Mixdown {
    Mixdown {
        routes: sink_views(slots),
        queues: queues(rings),
        metrics,
        samples: buffers::contents(list),
        stopped,
    }
}

impl DeviceIo {
    /// Mixes the routes that arrive at the device into the buffers that are to be played. What
    /// comes back tells whether a format error ended the playing.
    pub fn play_incoming<M: FloatMath>(
        &mut self,
        rings: &mut Vec<RingBuffer>,
        metrics: &mut RouterMetrics,
        list: &mut Vec<AudioBuffer>,
    ) -> (stopped: bool)
        requires
            old(self).wf(old(rings)@.len()),
        ensures
            final(self).wf(old(rings)@.len()),
            final(self).device_id == old(self).device_id,
            final(self).outgoing == old(self).outgoing,
            sink_rings(final(self).incoming@) == sink_rings(old(self).incoming@),
            final(rings)@.len() == old(rings)@.len(),
            capacities(final(rings)@) == capacities(old(rings)@),
            buffers::same_layout(final(list)@, old(list)@),
            plays_out::<M>(
                old(list)@,
                sink_rings(old(self).incoming@),
                mixdown(
                    old(self).incoming@,
                    old(rings)@,
                    *old(metrics),
                    old(list)@,
                    false,
                ),
                mixdown(
                    final(self).incoming@,
                    final(rings)@,
                    *final(metrics),
                    final(list)@,
                    stopped,
                ),
            ),
    {
        let frames = match audio_buffer_list_frames(list) {
            Some(frames) => frames,
            None => {
                metrics.format_errors = metrics.format_errors.wrapping_add(1);
                return true;
            },
        };
        let ghost layout = list@;
        clear_audio_buffer_list(list);
        let ghost start = mixdown(self.incoming@, rings@, *metrics, list@, false);
        let ghost ends = sink_rings(self.incoming@);
        let mut k: usize = 0;
        while k < self.incoming.len()
            invariant
                k <= self.incoming@.len(),
                self.wf(old(rings)@.len()),
                self.device_id == old(self).device_id,
                self.outgoing == old(self).outgoing,
                sink_rings(self.incoming@) == ends,
                ends == sink_rings(old(self).incoming@),
                rings@.len() == old(rings)@.len(),
                capacities(rings@) == capacities(old(rings)@),
                layout == old(list)@,
                buffers::list_frames(layout) == Some(frames as int),
                buffers::same_layout(list@, layout),
                start == (Mixdown {
                    samples: buffers::silenced(buffers::contents(old(list)@)),
                    ..mixdown(
                        old(self).incoming@,
                        old(rings)@,
                        *old(metrics),
                        old(list)@,
                        false,
                    )
                }),
                plays_routes::<M>(
                    layout,
                    frames as nat,
                    ends,
                    k as nat,
                    start,
                    mixdown(self.incoming@, rings@, *metrics, list@, false),
                ),
            decreases self.incoming.len() - k,
        {
            let ring = self.incoming[k].ring;
            let ghost middle = mixdown(self.incoming@, rings@, *metrics, list@, false);
            let ghost slots = self.incoming@;
            let ghost held = rings@;
            assert(self.incoming@[k as int].ring < rings@.len());
            assert(ends[k as int] == ring);
            let stopped = play_frames::<M>(
                &mut self.incoming[k],
                &mut rings[ring],
                metrics,
                list,
                frames,
                Ghost(layout),
            );
            proof {
                let after = mixdown(self.incoming@, rings@, *metrics, list@, stopped);
                let voice = voice_of(
                    self.incoming@[k as int],
                    rings@[ring as int],
                    *metrics,
                    list@,
                    stopped,
                );
                assert(middle.voice(k as int, ring as int) =~= voice_of(
                    slots[k as int],
                    held[ring as int],
                    middle.metrics,
                    list@,
                    false,
                ).with_samples(middle.samples));
                assert(after =~= middle.with_voice(k as int, ring as int, voice));
                assert(plays_frames::<M>(
                    layout,
                    frames as nat,
                    middle.voice(k as int, ring as int),
                    voice,
                ));
                let n = (k + 1) as nat;
                assert(plays_routes::<M>(
                    layout,
                    frames as nat,
                    ends,
                    (n - 1) as nat,
                    start,
                    middle,
                ));
                assert(plays_route::<M>(
                    layout,
                    frames as nat,
                    n - 1,
                    ends[n - 1] as int,
                    middle,
                    after,
                ));
                assert(plays_routes::<M>(layout, frames as nat, ends, n, start, after));
                assert(sink_rings(self.incoming@) =~= ends);
                assert(capacities(rings@) =~= capacities(held));
                if stopped {
                    lemma_all_ended::<M>(
                        layout,
                        frames as nat,
                        ends,
                        (k + 1) as nat,
                        ends.len(),
                        start,
                        after,
                    );
                }
            }
            if stopped {
                return true;
            }
            k = k + 1;
        }
        false
    }
}

/// What the recorded buffers of a callback do to the queues and counters. Nothing, where there are
/// none or no route leaves the device.
pub open spec fn after_input(
    context: DeviceIo,
    rings: Seq<RingBuffer>,
    metrics: RouterMetrics,
    input: Option<&Vec<AudioBuffer>>,
) -> Intake {
    let before = Intake { queues: queues(rings), metrics, stopped: false };
    match input {
        Some(list) => if context.outgoing@.len() > 0 {
            taken_in(before, capacities(rings), context.outgoing@, list@)
        } else {
            before
        },
        None => before,
    }
}

/// The routes, queues, counters and samples are what playing leaves, whether or not a format error
/// ended it.
pub open spec fn plays_into<M: FloatMath>(
    list: Seq<AudioBuffer>,
    rings: Seq<usize>,
    before: Mixdown,
    routes: Seq<IncomingView>,
    queues: Seq<Seq<Float32>>,
    metrics: RouterMetrics,
    samples: Seq<Seq<Float32>>,
) -> bool {
    exists|after: Mixdown|
        {
            &&& #[trigger] plays_out::<M>(list, rings, before, after)
            &&& after.routes == routes
            &&& after.queues == queues
            &&& after.metrics == metrics
            &&& after.samples == samples
        }
}

/// A route that waits plays nothing, however many frames it is asked for.
proof fn lemma_waits<M: FloatMath>(
    layout: Seq<AudioBuffer>,
    n: nat,
    before: Voice,
    after: Voice,
)
    requires
        before.playing().waits(),
        !before.stopped,
        plays_frames::<M>(layout, n, before, after),
    ensures
        after == before,
    decreases n,
{
    if n > 0 {
        let middle = choose|middle: Voice|
            {
                &&& plays_frames::<M>(layout, (n - 1) as nat, before, middle)
                &&& #[trigger] plays_frame::<M>(layout, n - 1, middle, after)
            };
        lemma_waits::<M>(layout, (n - 1) as nat, before, middle);
        assert(before.turned(before.playing()) =~= before);
    }
}

/// Routes that wait play nothing, one after the other.
proof fn lemma_all_wait<M: FloatMath>(
    layout: Seq<AudioBuffer>,
    frames: nat,
    rings: Seq<usize>,
    n: nat,
    before: Mixdown,
    after: Mixdown,
)
    requires
        n <= rings.len(),
        rings.len() == before.routes.len(),
        !before.stopped,
        forall|k: int|
            0 <= k < rings.len() ==> #[trigger] rings[k] < before.queues.len() && before.voice(
                k,
                rings[k] as int,
            ).playing().waits(),
        plays_routes::<M>(layout, frames, rings, n, before, after),
    ensures
        after == before,
    decreases n,
{
    if n > 0 {
        let middle = choose|middle: Mixdown|
            {
                &&& plays_routes::<M>(layout, frames, rings, (n - 1) as nat, before, middle)
                &&& #[trigger] plays_route::<M>(
                    layout,
                    frames,
                    n - 1,
                    rings[n - 1] as int,
                    middle,
                    after,
                )
            };
        lemma_all_wait::<M>(layout, frames, rings, (n - 1) as nat, before, middle);
        let ring = rings[n - 1] as int;
        let voice = choose|voice: Voice|
            #[trigger] plays_frames::<M>(layout, frames, before.voice(n - 1, ring), voice) && after
                == before.with_voice(n - 1, ring, voice);
        lemma_waits::<M>(layout, frames, before.voice(n - 1, ring), voice);
        assert(before.with_voice(n - 1, ring, voice) =~= before);
    }
}

/// Where too little is queued for every route, silence is played, and nothing is consumed or
/// counted.
pub proof fn waiting_routes_play_silence<M: FloatMath>(
    list: Seq<AudioBuffer>,
    rings: Seq<usize>,
    before: Mixdown,
    after: Mixdown,
)
    requires
        buffers::list_frames(list) is Some,
        rings.len() == before.routes.len(),
        !before.stopped,
        forall|k: int|
            0 <= k < rings.len() ==> #[trigger] rings[k] < before.queues.len() && before.voice(
                k,
                rings[k] as int,
            ).playing().waits(),
        plays_out::<M>(list, rings, before, after),
    ensures
        after == (Mixdown { samples: buffers::silenced(before.samples), ..before }),
{
    let frames = buffers::list_frames(list)->0 as nat;
    let silent = Mixdown { samples: buffers::silenced(before.samples), ..before };
    assert forall|k: int| 0 <= k < rings.len() implies #[trigger] rings[k] < silent.queues.len()
        && silent.voice(k, rings[k] as int).playing().waits() by {
        assert(rings[k] < before.queues.len());
        assert(silent.voice(k, rings[k] as int).playing() == before.voice(
            k,
            rings[k] as int,
        ).playing());
    }
    lemma_all_wait::<M>(list, frames, rings, rings.len(), silent, after);
}

/// What a device's callback does: it takes the recorded buffers in for the routes that leave the
/// device, and mixes the routes that arrive into the buffers that are to be played. A format error
/// ends it.
pub fn audio_device_io_proc<M: FloatMath>(
    context: &mut DeviceIo,
    rings: &mut Vec<RingBuffer>,
    metrics: &mut RouterMetrics,
    input: Option<&Vec<AudioBuffer>>,
    output: &mut Option<Vec<AudioBuffer>>,
)
    requires
        old(context).wf(old(rings)@.len()),
    ensures
        final(context).wf(old(rings)@.len()),
        final(context).device_id == old(context).device_id,
        final(context).outgoing@ == old(context).outgoing@,
        sink_rings(final(context).incoming@) == sink_rings(old(context).incoming@),
        final(rings)@.len() == old(rings)@.len(),
        capacities(final(rings)@) == capacities(old(rings)@),
        ({
            let fed = after_input(*old(context), old(rings)@, *old(metrics), input);
            if fed.stopped || old(context).incoming@.len() == 0 || *old(output) is None {
                &&& *final(output) == *old(output)
                &&& final(context).incoming@ == old(context).incoming@
                &&& queues(final(rings)@) == fed.queues
                &&& *final(metrics) == fed.metrics
            } else {
                &&& *final(output) is Some
                &&& buffers::same_layout(final(output)->0@, old(output)->0@)
                &&& plays_into::<M>(
                    old(output)->0@,
                    sink_rings(old(context).incoming@),
                    Mixdown {
                        routes: sink_views(old(context).incoming@),
                        queues: fed.queues,
                        metrics: fed.metrics,
                        samples: buffers::contents(old(output)->0@),
                        stopped: false,
                    },
                    sink_views(final(context).incoming@),
                    queues(final(rings)@),
                    *final(metrics),
                    buffers::contents(final(output)->0@),
                )
            }
        }),
{
    if context.outgoing.len() > 0 {
        if let Some(list) = input {
            let stopped = context.feed_outgoing(rings, metrics, list);
            if stopped {
                return;
            }
        }
    }
    let ghost fed = after_input(*old(context), old(rings)@, *old(metrics), input);
    assert(queues(rings@) == fed.queues);
    if context.incoming.len() > 0 {
        if let Some(list) = output {
            let ghost start = mixdown(context.incoming@, rings@, *metrics, list@, false);
            let ghost ends = sink_rings(context.incoming@);
            let ghost layout = list@;
            let stopped = context.play_incoming::<M>(rings, metrics, list);
            proof {
                assert(start =~= Mixdown {
                    routes: sink_views(old(context).incoming@),
                    queues: fed.queues,
                    metrics: fed.metrics,
                    samples: buffers::contents(layout),
                    stopped: false,
                });
                assert(plays_out::<M>(
                    layout,
                    ends,
                    start,
                    mixdown(context.incoming@, rings@, *metrics, list@, stopped),
                ));
                assert(plays_into::<M>(
                    layout,
                    ends,
                    start,
                    sink_views(context.incoming@),
                    queues(rings@),
                    *metrics,
                    buffers::contents(list@),
                ));
            }
        }
    }
}

} // verus!
