//! Laws of the callback of a device.
use vstd::prelude::*;
use vstd::arithmetic::div_mod::*;
use vstd::arithmetic::mul::*;
use crate::buffers;
use crate::buffers::{
    add_audio_sample, audio_buffer_list_frames, clear_audio_buffer_list, read_audio_sample,
    AudioBuffer,
};
use crate::float::{Float32, FloatMath};
use crate::incoming;
use crate::incoming::{IncomingView, Playing};
use crate::io;
use crate::io::{Mixdown, Voice};
use crate::laws::arithmetic;
use crate::laws::playing;
use crate::ring::RingBuffer;
use crate::router::{DeviceIo, RouterMetrics};

verus! {

/// The number of channels of the first `n` buffers.
pub open spec fn channels_before(list: Seq<AudioBuffer>, n: int) -> int
    decreases n,
{
    if n <= 0 {
        0
    } else {
        channels_before(list, n - 1) + list[n - 1].number_channels
    }
}

/// The sample of a channel in a frame stands at a place of a buffer. Channels are counted through
/// all buffers, and a buffer holds its frames one after the other.
pub open spec fn is_place(
    list: Seq<AudioBuffer>,
    frame: int,
    channel: int,
    buffer: int,
    at: int,
) -> bool {
    &&& 0 <= buffer < list.len()
    &&& channels_before(list, buffer) <= channel < channels_before(list, buffer)
        + list[buffer].number_channels
    &&& at == frame * list[buffer].number_channels + (channel - channels_before(list, buffer))
    &&& at < list[buffer].samples@.len()
}

/// Every buffer holds the samples of `frames` frames.
pub open spec fn is_filled(list: Seq<AudioBuffer>, frames: int) -> bool {
    &&& frames >= 0
    &&& forall|i: int|
        0 <= i < list.len() ==> (#[trigger] list[i]).samples@.len() == frames
            * list[i].number_channels
}

/// More buffers have no fewer channels.
proof fn lemma_channels_grow(list: Seq<AudioBuffer>, m: int, n: int)
    requires
        0 <= m <= n <= list.len(),
    ensures
        channels_before(list, m) <= channels_before(list, n),
        0 <= channels_before(list, m),
    decreases n,
{
    if n > 0 {
        if m < n {
            lemma_channels_grow(list, m, n - 1);
        } else {
            lemma_channels_grow(list, m - 1, n - 1);
        }
    }
}

/// The channels before a buffer are those of the first one and those between.
proof fn lemma_channels_skip(list: Seq<AudioBuffer>, n: int)
    requires
        1 <= n <= list.len(),
    ensures
        channels_before(list, n) == list[0].number_channels + channels_before(list.skip(1), n - 1),
    decreases n,
{
    if n > 1 {
        lemma_channels_skip(list, n - 1);
        assert(list.skip(1)[n - 2] == list[n - 1]);
    } else {
        assert(channels_before(list, 0) == 0);
    }
}

/// Where a channel is found.
proof fn lemma_channel_found(list: Seq<AudioBuffer>, channel: int)
    requires
        0 <= channel,
    ensures
        match buffers::channel_place(list, channel) {
            Some((buffer, local)) => {
                &&& 0 <= buffer < list.len()
                &&& local == channel - channels_before(list, buffer)
                &&& 0 <= local < list[buffer].number_channels
            },
            None => channels_before(list, list.len() as int) <= channel,
        },
    decreases list.len(),
{
    if list.len() > 0 {
        if channel < list[0].number_channels {
            assert(channels_before(list, 0) == 0);
        } else {
            lemma_channel_found(list.skip(1), channel - list[0].number_channels);
            match buffers::channel_place(list.skip(1), channel - list[0].number_channels) {
                Some((buffer, local)) => {
                    lemma_channels_skip(list, buffer + 1);
                },
                None => {
                    lemma_channels_skip(list, list.len() as int);
                },
            }
        }
    }
}

/// A sample is found exactly where it stands.
pub proof fn lemma_found(list: Seq<AudioBuffer>, frame: int, channel: int)
    requires
        0 <= channel,
        0 <= frame,
    ensures
        forall|buffer: int, at: int| #[trigger]
            is_place(list, frame, channel, buffer, at) <==> buffers::sample_place(
                list,
                frame,
                channel,
            ) == Some((buffer, at)),
{
    lemma_channel_found(list, channel);
    assert forall|buffer: int, at: int| #[trigger]
        is_place(list, frame, channel, buffer, at) implies buffers::sample_place(
        list,
        frame,
        channel,
    ) == Some((buffer, at)) by {
        match buffers::channel_place(list, channel) {
            Some((found, local)) => {
                if found < buffer {
                    lemma_channels_grow(list, found + 1, buffer);
                } else if buffer < found {
                    lemma_channels_grow(list, buffer + 1, found);
                }
            },
            None => {
                lemma_channels_grow(list, buffer + 1, list.len() as int);
            },
        }
    }
}

/// In filled buffers every channel has a sample in every frame.
pub proof fn lemma_all_there(list: Seq<AudioBuffer>, frames: int, frame: int, channel: int)
    requires
        is_filled(list, frames),
        0 <= frame < frames,
        0 <= channel < channels_before(list, list.len() as int),
    ensures
        buffers::sample_place(list, frame, channel) is Some,
        ({
            let place = buffers::sample_place(list, frame, channel)->0;
            is_place(list, frame, channel, place.0, place.1)
        }),
{
    lemma_channel_found(list, channel);
    let (buffer, local) = buffers::channel_place(list, channel)->0;
    let n = list[buffer].number_channels as int;
    lemma_mul_inequality(frame + 1, frames, n);
    lemma_mul_is_distributive_add_other_way(n, frame, 1);
    lemma_found(list, frame, channel);
}

/// Different samples stand at different places.
proof fn lemma_places_differ(
    list: Seq<AudioBuffer>,
    frame: int,
    channel: int,
    other_frame: int,
    other_channel: int,
    buffer: int,
    at: int,
)
    requires
        0 <= frame,
        0 <= other_frame,
        is_place(list, frame, channel, buffer, at),
        is_place(list, other_frame, other_channel, buffer, at),
    ensures
        frame == other_frame,
        channel == other_channel,
{
    let n = list[buffer].number_channels as int;
    let before = channels_before(list, buffer);
    lemma_fundamental_div_mod_converse(at, n, frame, channel - before);
    lemma_fundamental_div_mod_converse(at, n, other_frame, other_channel - before);
}

/// Reading gives the sample that stands at the place of a channel in a frame, and nothing where none
/// stands there.
pub proof fn samples_are_read_at_their_place(
    list: Vec<AudioBuffer>,
    frame: usize,
    channel: usize,
    sample: Option<Float32>,
)
    requires
        call_ensures(read_audio_sample, (&list, frame, channel), sample),
    ensures
        forall|buffer: int, at: int| #[trigger]
            is_place(list@, frame as int, channel as int, buffer, at) ==> sample == Some(
                list@[buffer].samples@[at],
            ),
        sample is Some ==> exists|buffer: int, at: int| #[trigger]
            is_place(list@, frame as int, channel as int, buffer, at),
{
    lemma_found(list@, frame as int, channel as int);
    if sample is Some {
        let place = buffers::sample_place(list@, frame as int, channel as int)->0;
        assert(is_place(list@, frame as int, channel as int, place.0, place.1));
    }
}

/// Adding changes the sample that stands at the place of a channel in a frame, and nothing else.
pub proof fn samples_are_added_at_their_place<M: FloatMath>(
    list: &mut Vec<AudioBuffer>,
    frame: usize,
    channel: usize,
    value: Float32,
    added: bool,
)
    requires
        call_ensures(add_audio_sample::<M>, (list, frame, channel, value), added),
    ensures
        added <==> exists|buffer: int, at: int| #[trigger]
            is_place(old(list)@, frame as int, channel as int, buffer, at),
        !added ==> final(list)@ == old(list)@,
        final(list)@.len() == old(list)@.len(),
        forall|buffer: int, at: int| #[trigger]
            is_place(old(list)@, frame as int, channel as int, buffer, at) ==> call_ensures(
                M::add,
                (old(list)@[buffer].samples@[at], value),
                final(list)@[buffer].samples@[at],
            ),
        forall|buffer: int, at: int|
            0 <= buffer < old(list)@.len() && 0 <= at < old(list)@[buffer].samples@.len()
                && !is_place(old(list)@, frame as int, channel as int, buffer, at) ==> (
            #[trigger] final(list)@[buffer].samples@[at]) == old(list)@[buffer].samples@[at],
{
    let before = old(list)@;
    let after = final(list)@;
    lemma_found(before, frame as int, channel as int);
    match buffers::sample_place(before, frame as int, channel as int) {
        Some(place) => {
            assert(is_place(before, frame as int, channel as int, place.0, place.1));
            let sum = choose|sum: Float32|
                {
                    &&& #[trigger] call_ensures(
                        M::add,
                        (buffers::contents(before)[place.0][place.1], value),
                        sum,
                    )
                    &&& buffers::contents(after) == buffers::contents(before).update(
                        place.0,
                        buffers::contents(before)[place.0].update(place.1, sum),
                    )
                };
            assert forall|buffer: int| 0 <= buffer < before.len() implies (
            #[trigger] after[buffer]).samples@ == buffers::contents(after)[buffer] by {}
            lemma_channel_found(before, channel as int);
            lemma_mul_nonnegative(frame as int, before[place.0].number_channels as int);
        },
        None => {},
    }
}

/// Clearing leaves as many zeros as there were samples.
pub proof fn cleared_buffers_are_silent(list: &mut Vec<AudioBuffer>)
    requires
        call_ensures(clear_audio_buffer_list, (list,), ()),
    ensures
        final(list)@.len() == old(list)@.len(),
        forall|buffer: int|
            0 <= buffer < old(list)@.len() ==> (#[trigger] final(list)@[buffer]).samples@.len()
                == old(list)@[buffer].samples@.len(),
        forall|buffer: int, at: int|
            0 <= buffer < old(list)@.len() && 0 <= at < old(list)@[buffer].samples@.len() ==> (
            #[trigger] final(list)@[buffer].samples@[at]).bits == 0,
{
    let after = final(list)@;
    assert forall|buffer: int| 0 <= buffer < after.len() implies (#[trigger] after[buffer]).samples@
        == buffers::contents(after)[buffer] by {}
    assert forall|buffer: int| 0 <= buffer < old(list)@.len() implies (
    #[trigger] old(list)@[buffer]).samples@ == buffers::contents(old(list)@)[buffer] by {}
}

/// A list of buffers has a number of frames where each of its buffers has data, channels, and the
/// bytes of so many frames of four bytes for each channel.
pub proof fn frames_fill_all_buffers(list: Vec<AudioBuffer>, frames: Option<usize>)
    requires
        call_ensures(audio_buffer_list_frames, (&list,), frames),
    ensures
        list@.len() == 0 ==> frames == Some(0usize),
        frames matches Some(frames) ==> forall|i: int|
            0 <= i < list@.len() ==> {
                &&& (#[trigger] list@[i]).has_data
                &&& list@[i].number_channels > 0
                &&& list@[i].data_byte_size == frames * (list@[i].number_channels * 4)
            },
        frames is None ==> !exists|frames: int|
            {
                &&& frames >= 0
                &&& #[trigger] has_frames(list@, frames)
            },
{
    if let Some(frames) = frames {
        assert forall|i: int| 0 <= i < list@.len() implies {
            &&& (#[trigger] list@[i]).has_data
            &&& list@[i].number_channels > 0
            &&& list@[i].data_byte_size == frames * (list@[i].number_channels * 4)
        } by {
            assert(list@[i].frames() == list@[0].frames());
            let size = list@[i].number_channels * 4;
            lemma_fundamental_div_mod(list@[i].data_byte_size as int, size);
            lemma_mul_is_commutative(size, frames as int);
        }
    } else {
        assert forall|frames: int| frames >= 0 implies !#[trigger] has_frames(list@, frames) by {
            if has_frames(list@, frames) {
                assert forall|i: int| 0 <= i < list@.len() implies (#[trigger] list@[i]).frames()
                    == Some(frames) by {
                    let size = list@[i].number_channels * 4;
                    lemma_fundamental_div_mod_converse(
                        list@[i].data_byte_size as int,
                        size,
                        frames,
                        0,
                    );
                }
                assert(list@[0].frames() == Some(frames));
            }
        }
    }
}

/// Each buffer has data, channels, and the bytes of so many frames.
pub open spec fn has_frames(list: Seq<AudioBuffer>, frames: int) -> bool {
    &&& list.len() > 0
    &&& forall|i: int|
        0 <= i < list.len() ==> {
            &&& (#[trigger] list[i]).has_data
            &&& list[i].number_channels > 0
            &&& list[i].data_byte_size == frames * (list[i].number_channels * 4)
        }
}

/// What a route adds to a sink channel: the channel's row of its matrix, applied to the frame that
/// it put out, times its gain.
pub open spec fn contribution(
    read: spec_fn(Float32) -> int,
    route: IncomingView,
    channel: int,
) -> int {
    arithmetic::weighted(
        read,
        route.matrix,
        channel * route.source_channels,
        route.interpolated,
        route.source_channels,
    ) * read(route.gain)
}

/// The samples stand in buffers of the layout.
pub open spec fn is_shaped(samples: Seq<Seq<Float32>>, layout: Seq<AudioBuffer>) -> bool {
    &&& samples.len() == layout.len()
    &&& forall|i: int|
        0 <= i < layout.len() ==> (#[trigger] samples[i]).len() == layout[i].samples@.len()
}

/// Mixing a frame adds to each of the first `n` channels what the route adds to it.
proof fn lemma_mixes<M: FloatMath>(
    read: spec_fn(Float32) -> int,
    route: IncomingView,
    layout: Seq<AudioBuffer>,
    frame: int,
    n: nat,
    before: Seq<Seq<Float32>>,
    after: Seq<Seq<Float32>>,
)
    requires
        arithmetic::is_exact::<M>(read),
        route.wf(),
        n <= route.sink_channels,
        0 <= frame,
        is_shaped(before, layout),
        io::mixes::<M>(route, layout, frame, n, before, after),
    ensures
        is_shaped(after, layout),
        forall|f: int, c: int, buffer: int, at: int|
            0 <= f && 0 <= c && #[trigger] is_place(layout, f, c, buffer, at) ==> read(
                after[buffer][at],
            ) == read(before[buffer][at]) + if f == frame && c < n {
                contribution(read, route, c)
            } else {
                0
            },
    decreases n,
{
    if n > 0 {
        let last = n - 1;
        let place = buffers::sample_place(layout, frame, last)->0;
        let (middle, mixed) = choose|middle: Seq<Seq<Float32>>, mixed: Float32|
            {
                &&& io::mixes::<M>(route, layout, frame, (n - 1) as nat, before, middle)
                &&& crate::matrix::is_mixed::<M>(
                    route.row(n - 1),
                    route.interpolated,
                    route.gain,
                    mixed,
                )
                &&& #[trigger] buffers::is_added::<M>(
                    middle,
                    buffers::sample_place(layout, frame, n - 1)->0,
                    mixed,
                    after,
                )
            };
        lemma_mixes::<M>(read, route, layout, frame, (n - 1) as nat, before, middle);
        lemma_found(layout, frame, last);
        assert(is_place(layout, frame, last, place.0, place.1));
        lemma_mul_nonnegative(frame, layout[place.0].number_channels as int);
        playing::lemma_row::<M>(route, last, mixed);
        arithmetic::lemma_row_read::<M>(
            read,
            route.matrix,
            last * route.source_channels,
            route.interpolated,
            route.gain,
            mixed,
        );
        let sum = choose|sum: Float32|
            {
                &&& #[trigger] call_ensures(M::add, (middle[place.0][place.1], mixed), sum)
                &&& after == middle.update(place.0, middle[place.0].update(place.1, sum))
            };
        assert forall|f: int, c: int, buffer: int, at: int|
            0 <= f && 0 <= c && #[trigger] is_place(layout, f, c, buffer, at) implies read(
            after[buffer][at],
        ) == read(before[buffer][at]) + if f == frame && c < n {
            contribution(read, route, c)
        } else {
            0
        } by {
            lemma_mul_nonnegative(f, layout[buffer].number_channels as int);
            if buffer == place.0 && at == place.1 {
                lemma_places_differ(layout, f, c, frame, last, buffer, at);
                assert(after[buffer][at] == sum);
            } else {
                if f == frame && c == last {
                    lemma_found(layout, f, c);
                }
                assert(after[buffer][at] == middle[buffer][at]);
            }
        }
    }
}

/// The states that a route comes to, and whether it put a frame out on the way to each.
pub open spec fn is_history<M: FloatMath>(states: Seq<Playing>, heard: Seq<bool>) -> bool {
    &&& states.len() == heard.len() + 1
    &&& forall|f: int|
        0 <= f < heard.len() ==> incoming::turns::<M>(
            #[trigger] states[f],
            states[f + 1],
            heard[f],
        )
}

/// What a route with a history adds to a channel of a frame.
pub open spec fn part(
    read: spec_fn(Float32) -> int,
    states: Seq<Playing>,
    heard: Seq<bool>,
    frame: int,
    channel: int,
) -> int {
    if 0 <= frame < heard.len() && heard[frame] && channel < states[0].route.sink_channels {
        contribution(read, states[frame + 1].route, channel)
    } else {
        0
    }
}

/// What routes with histories add to a channel of a frame together.
pub open spec fn total(
    read: spec_fn(Float32) -> int,
    histories: Seq<(Seq<Playing>, Seq<bool>)>,
    frame: int,
    channel: int,
) -> int
    decreases histories.len(),
{
    if histories.len() == 0 {
        0
    } else {
        total(read, histories.drop_last(), frame, channel) + part(
            read,
            histories.last().0,
            histories.last().1,
            frame,
            channel,
        )
    }
}

/// Playing a frame adds the route's frame, where it put one out.
proof fn lemma_frame<M: FloatMath>(
    read: spec_fn(Float32) -> int,
    layout: Seq<AudioBuffer>,
    frames: int,
    frame: int,
    before: Voice,
    after: Voice,
) -> (heard: bool)
    requires
        arithmetic::is_exact::<M>(read),
        is_filled(layout, frames),
        0 <= frame < frames,
        before.route.wf(),
        before.route.sink_channels <= channels_before(layout, layout.len() as int),
        !before.stopped,
        is_shaped(before.samples, layout),
        io::plays_frame::<M>(layout, frame, before, after),
    ensures
        incoming::turns::<M>(before.playing(), after.playing(), heard),
        after.route.wf(),
        after.route.sink_channels == before.route.sink_channels,
        !after.stopped,
        after.metrics == (RouterMetrics { underruns: after.metrics.underruns, ..before.metrics }),
        is_shaped(after.samples, layout),
        forall|f: int, c: int, buffer: int, at: int|
            0 <= f && 0 <= c && #[trigger] is_place(layout, f, c, buffer, at) ==> read(
                after.samples[buffer][at],
            ) == read(before.samples[buffer][at]) + if f == frame && heard && c
                < before.route.sink_channels {
                contribution(read, after.route, c)
            } else {
                0
            },
{
    let (next, ready) = choose|next: Playing, ready: bool|
        {
            &&& #[trigger] incoming::turns::<M>(before.playing(), next, ready)
            &&& if ready {
                io::mixes_in::<M>(layout, frame, before.turned(next), after)
            } else {
                after == before.turned(next)
            }
        };
    playing::lemma_turn::<M>(before.playing(), next, ready);
    if ready {
        let turned = before.turned(next);
        let (n, samples) = choose|n: nat, samples: Seq<Seq<Float32>>|
            {
                &&& #[trigger] io::mixes::<M>(
                    turned.route,
                    layout,
                    frame,
                    n,
                    turned.samples,
                    samples,
                )
                &&& n <= turned.route.sink_channels
                &&& if n == turned.route.sink_channels {
                    after == turned.with_samples(samples)
                } else {
                    &&& buffers::sample_place(layout, frame, n as int) is None
                    &&& after == turned.with_samples(samples).broken()
                }
            };
        if n < turned.route.sink_channels {
            lemma_all_there(layout, frames, frame, n as int);
        }
        lemma_mixes::<M>(read, turned.route, layout, frame, n, turned.samples, samples);
        assert(after.playing() =~= next);
    } else {
        assert(after.playing() =~= next);
    }
    ready
}

/// Playing frames adds the frames that the route put out.
proof fn lemma_frames<M: FloatMath>(
    read: spec_fn(Float32) -> int,
    layout: Seq<AudioBuffer>,
    frames: int,
    n: nat,
    before: Voice,
    after: Voice,
) -> (history: (Seq<Playing>, Seq<bool>))
    requires
        arithmetic::is_exact::<M>(read),
        is_filled(layout, frames),
        n <= frames,
        before.route.wf(),
        before.route.sink_channels <= channels_before(layout, layout.len() as int),
        !before.stopped,
        is_shaped(before.samples, layout),
        io::plays_frames::<M>(layout, n, before, after),
    ensures
        is_history::<M>(history.0, history.1),
        history.1.len() == n,
        history.0[0] == before.playing(),
        history.0.last() == after.playing(),
        after.route.wf(),
        after.route.sink_channels == before.route.sink_channels,
        !after.stopped,
        after.metrics == (RouterMetrics { underruns: after.metrics.underruns, ..before.metrics }),
        is_shaped(after.samples, layout),
        forall|f: int, c: int, buffer: int, at: int|
            0 <= f && 0 <= c && #[trigger] is_place(layout, f, c, buffer, at) ==> read(
                after.samples[buffer][at],
            ) == read(before.samples[buffer][at]) + part(read, history.0, history.1, f, c),
    decreases n,
{
    if n == 0 {
        (seq![before.playing()], Seq::empty())
    } else {
        let middle = choose|middle: Voice|
            {
                &&& io::plays_frames::<M>(layout, (n - 1) as nat, before, middle)
                &&& #[trigger] io::plays_frame::<M>(layout, n - 1, middle, after)
            };
        let shorter = lemma_frames::<M>(read, layout, frames, (n - 1) as nat, before, middle);
        let heard = lemma_frame::<M>(read, layout, frames, n - 1, middle, after);
        let history = (shorter.0.push(after.playing()), shorter.1.push(heard));
        assert forall|f: int| 0 <= f < history.1.len() implies incoming::turns::<M>(
            #[trigger] history.0[f],
            history.0[f + 1],
            history.1[f],
        ) by {
            if f < n - 1 {
                assert(incoming::turns::<M>(shorter.0[f], shorter.0[f + 1], shorter.1[f]));
            }
        }
        assert forall|f: int, c: int, buffer: int, at: int|
            0 <= f && 0 <= c && #[trigger] is_place(layout, f, c, buffer, at) implies read(
            after.samples[buffer][at],
        ) == read(before.samples[buffer][at]) + part(read, history.0, history.1, f, c) by {
            if f < n - 1 {
                assert(history.0[f + 1] == shorter.0[f + 1]);
            }
        }
        history
    }
}

/// The histories are those of routes: each starts from the state of its route and what was queued
/// for it, and ends at the state and the queue that are left. Underruns are counted on from one to
/// the next.
pub open spec fn are_histories<M: FloatMath>(
    histories: Seq<(Seq<Playing>, Seq<bool>)>,
    frames: int,
    rings: Seq<usize>,
    before: Mixdown,
    after: Mixdown,
) -> bool {
    forall|k: int|
        0 <= k < histories.len() ==> {
            let states = (#[trigger] histories[k]).0;
            &&& is_history::<M>(states, histories[k].1)
            &&& histories[k].1.len() == frames
            &&& states[0].route == before.routes[k]
            &&& states[0].queued == before.queues[rings[k] as int]
            &&& states[0].underruns == if k == 0 {
                before.metrics.underruns
            } else {
                histories[k - 1].0.last().underruns
            }
            &&& states.last().route == after.routes[k]
            &&& states.last().queued == after.queues[rings[k] as int]
        }
}

/// Routes that play one after the other add what each of them put out.
pub proof fn lemma_routes<M: FloatMath>(
    read: spec_fn(Float32) -> int,
    layout: Seq<AudioBuffer>,
    frames: nat,
    rings: Seq<usize>,
    n: nat,
    before: Mixdown,
    after: Mixdown,
) -> (histories: Seq<(Seq<Playing>, Seq<bool>)>)
    requires
        arithmetic::is_exact::<M>(read),
        is_filled(layout, frames as int),
        n <= rings.len(),
        rings.len() == before.routes.len(),
        forall|k: int|
            0 <= k < rings.len() ==> #[trigger] rings[k] < before.queues.len()
                && before.routes[k].wf() && before.routes[k].sink_channels <= channels_before(
                layout,
                layout.len() as int,
            ),
        forall|i: int, j: int| 0 <= i < j < rings.len() ==> #[trigger] rings[i] != #[trigger] rings[j],
        !before.stopped,
        is_shaped(before.samples, layout),
        io::plays_routes::<M>(layout, frames, rings, n, before, after),
    ensures
        histories.len() == n,
        are_histories::<M>(histories, frames as int, rings, before, after),
        !after.stopped,
        after.routes.len() == before.routes.len(),
        after.queues.len() == before.queues.len(),
        forall|j: int| n <= j < rings.len() ==> #[trigger] after.routes[j] == before.routes[j],
        forall|j: int|
            n <= j < rings.len() ==> after.queues[(#[trigger] rings[j]) as int]
                == before.queues[rings[j] as int],
        forall|r: int|
            0 <= r < before.queues.len() && (forall|k: int|
                0 <= k < rings.len() ==> #[trigger] rings[k] != r) ==> #[trigger] after.queues[r]
                == before.queues[r],
        after.metrics == (RouterMetrics {
            underruns: if n == 0 {
                before.metrics.underruns
            } else {
                histories.last().0.last().underruns
            },
            ..before.metrics
        }),
        is_shaped(after.samples, layout),
        forall|f: int, c: int, buffer: int, at: int|
            0 <= f && 0 <= c && #[trigger] is_place(layout, f, c, buffer, at) ==> read(
                after.samples[buffer][at],
            ) == read(before.samples[buffer][at]) + total(read, histories, f, c),
    decreases n,
{
    if n == 0 {
        Seq::empty()
    } else {
        let k = n - 1;
        let ring = rings[k] as int;
        let middle = choose|middle: Mixdown|
            {
                &&& io::plays_routes::<M>(layout, frames, rings, (n - 1) as nat, before, middle)
                &&& #[trigger] io::plays_route::<M>(
                    layout,
                    frames,
                    n - 1,
                    rings[n - 1] as int,
                    middle,
                    after,
                )
            };
        let shorter = lemma_routes::<M>(
            read,
            layout,
            frames,
            rings,
            (n - 1) as nat,
            before,
            middle,
        );
        assert(middle.routes[k] == before.routes[k]);
        let voice = choose|voice: Voice|
            #[trigger] io::plays_frames::<M>(layout, frames, middle.voice(k, ring), voice) && after
                == middle.with_voice(k, ring, voice);
        let history = lemma_frames::<M>(
            read,
            layout,
            frames as int,
            frames,
            middle.voice(k, ring),
            voice,
        );
        let histories = shorter.push(history);
        assert(histories.drop_last() =~= shorter);
        assert forall|i: int| 0 <= i < histories.len() implies {
            let states = (#[trigger] histories[i]).0;
            &&& is_history::<M>(states, histories[i].1)
            &&& histories[i].1.len() == frames
            &&& states[0].route == before.routes[i]
            &&& states[0].queued == before.queues[rings[i] as int]
            &&& states[0].underruns == if i == 0 {
                before.metrics.underruns
            } else {
                histories[i - 1].0.last().underruns
            }
            &&& states.last().route == after.routes[i]
            &&& states.last().queued == after.queues[rings[i] as int]
        } by {
            assert(rings[i] < before.queues.len());
            if i < k {
                assert(histories[i] == shorter[i]);
                assert(rings[i] != rings[k]);
                if i > 0 {
                    assert(histories[i - 1] == shorter[i - 1]);
                }
            } else if k > 0 {
                assert(histories[k - 1] == shorter.last());
            }
        }
        assert forall|j: int| n <= j < rings.len() implies after.queues[(
        #[trigger] rings[j]) as int] == before.queues[rings[j] as int] by {
            assert(rings[k] != rings[j]);
            assert(rings[j] < before.queues.len());
        }
        assert forall|r: int|
            0 <= r < before.queues.len() && (forall|k: int|
                0 <= k < rings.len() ==> #[trigger] rings[k] != r) implies #[trigger] after.queues[r]
            == before.queues[r] by {
            assert(rings[k] != r);
        }
        histories
    }
}

/// Every route that arrives at a device plays its frames in their order, from what is queued for it,
/// and what is played is the sum of what the routes put out: for each frame and channel, the
/// channel's row of each route's matrix, applied to the route's frame, times the route's gain.
/// Routes that put nothing out add nothing.
pub proof fn devices_play_the_sum_of_their_routes<M: FloatMath>(
    context: &mut DeviceIo,
    rings: &mut Vec<RingBuffer>,
    metrics: &mut RouterMetrics,
    list: &mut Vec<AudioBuffer>,
    stopped: bool,
    frames: usize,
    read: spec_fn(Float32) -> int,
)
    requires
        old(context).wf(old(rings)@.len()),
        call_ensures(DeviceIo::play_incoming::<M>, (context, rings, metrics, list), stopped),
        call_ensures(audio_buffer_list_frames, (old(list),), Some(frames)),
        is_filled(old(list)@, frames as int),
        arithmetic::is_exact::<M>(read),
        read(Float32 { bits: 0 }) == 0,
        forall|k: int|
            0 <= k < old(context).incoming@.len() ==> (
            #[trigger] old(context).incoming@[k]).route@.sink_channels <= channels_before(
                old(list)@,
                old(list)@.len() as int,
            ),
        forall|i: int, j: int|
            0 <= i < j < old(context).incoming@.len() ==> (
            #[trigger] old(context).incoming@[i]).ring != (
            #[trigger] old(context).incoming@[j]).ring,
    ensures
        !stopped,
        final(context).incoming@.len() == old(context).incoming@.len(),
        exists|histories: Seq<(Seq<Playing>, Seq<bool>)>|
            {
                &&& histories.len() == old(context).incoming@.len()
                &&& #[trigger] are_histories::<M>(
                    histories,
                    frames as int,
                    io::sink_rings(old(context).incoming@),
                    Mixdown {
                        routes: io::sink_views(old(context).incoming@),
                        queues: io::queues(old(rings)@),
                        metrics: *old(metrics),
                        samples: buffers::contents(old(list)@),
                        stopped: false,
                    },
                    Mixdown {
                        routes: io::sink_views(final(context).incoming@),
                        queues: io::queues(final(rings)@),
                        metrics: *final(metrics),
                        samples: buffers::contents(final(list)@),
                        stopped: false,
                    },
                )
                &&& forall|f: int, c: int, buffer: int, at: int|
                    0 <= f && 0 <= c && #[trigger] is_place(
                        old(list)@,
                        f,
                        c,
                        buffer,
                        at,
                    ) ==> read(final(list)@[buffer].samples@[at]) == total(read, histories, f, c)
            },
        final(metrics).overruns == old(metrics).overruns,
        final(metrics).format_errors == old(metrics).format_errors,
        forall|r: int|
            0 <= r < old(rings)@.len() && (forall|k: int|
                0 <= k < old(context).incoming@.len() ==> (
                #[trigger] old(context).incoming@[k]).ring != r) ==> (
            #[trigger] final(rings)@[r])@ == old(rings)@[r]@,
{
    let slots = old(context).incoming@;
    let ends = io::sink_rings(slots);
    let layout = old(list)@;
    let before = Mixdown {
        routes: io::sink_views(slots),
        queues: io::queues(old(rings)@),
        metrics: *old(metrics),
        samples: buffers::contents(layout),
        stopped: false,
    };
    let after = Mixdown {
        routes: io::sink_views(final(context).incoming@),
        queues: io::queues(final(rings)@),
        metrics: *final(metrics),
        samples: buffers::contents(final(list)@),
        stopped,
    };
    assert(before =~= io::mixdown(slots, old(rings)@, *old(metrics), layout, false));
    assert(after =~= io::mixdown(
        final(context).incoming@,
        final(rings)@,
        *final(metrics),
        final(list)@,
        stopped,
    ));
    let silent = Mixdown { samples: buffers::silenced(before.samples), ..before };
    assert(is_shaped(silent.samples, layout));
    assert forall|k: int| 0 <= k < ends.len() implies #[trigger] ends[k] < silent.queues.len()
        && silent.routes[k].wf() && silent.routes[k].sink_channels <= channels_before(
        layout,
        layout.len() as int,
    ) by {
        assert(slots[k].ring < old(rings)@.len());
    }
    assert forall|i: int, j: int| 0 <= i < j < ends.len() implies #[trigger] ends[i]
        != #[trigger] ends[j] by {
        assert(slots[i].ring != slots[j].ring);
    }
    let histories = lemma_routes::<M>(
        read,
        layout,
        frames as nat,
        ends,
        ends.len(),
        silent,
        after,
    );
    assert(are_histories::<M>(histories, frames as int, ends, before, after)) by {
        assert forall|k: int| 0 <= k < histories.len() implies {
            let states = (#[trigger] histories[k]).0;
            &&& is_history::<M>(states, histories[k].1)
            &&& histories[k].1.len() == frames
            &&& states[0].route == before.routes[k]
            &&& states[0].queued == before.queues[ends[k] as int]
            &&& states[0].underruns == if k == 0 {
                before.metrics.underruns
            } else {
                histories[k - 1].0.last().underruns
            }
            &&& states.last().route == after.routes[k]
            &&& states.last().queued == after.queues[ends[k] as int]
        } by {}
    }
    assert forall|f: int, c: int, buffer: int, at: int|
        0 <= f && 0 <= c && #[trigger] is_place(layout, f, c, buffer, at) implies read(
        final(list)@[buffer].samples@[at],
    ) == total(read, histories, f, c) by {
        lemma_mul_nonnegative(f, layout[buffer].number_channels as int);
        assert(after.samples[buffer] == final(list)@[buffer].samples@);
        assert(silent.samples[buffer][at] == Float32 { bits: 0 });
    }
    assert forall|r: int|
        0 <= r < old(rings)@.len() && (forall|k: int|
            0 <= k < slots.len() ==> (#[trigger] slots[k]).ring != r) implies (
    #[trigger] final(rings)@[r])@ == old(rings)@[r]@ by {
        assert forall|k: int| 0 <= k < ends.len() implies #[trigger] ends[k] != r by {
            assert(slots[k].ring != r);
        }
        assert(after.queues[r] == silent.queues[r]);
    }
}

/// The first frame that is played, after which nothing changes where it ends the playing.
proof fn lemma_first_frame<M: FloatMath>(
    layout: Seq<AudioBuffer>,
    n: nat,
    before: Voice,
    after: Voice,
) -> (first: Voice)
    requires
        n > 0,
        io::plays_frames::<M>(layout, n, before, after),
    ensures
        io::plays_frame::<M>(layout, 0, before, first),
        first.stopped ==> after == first,
    decreases n,
{
    let middle = choose|middle: Voice|
        {
            &&& io::plays_frames::<M>(layout, (n - 1) as nat, before, middle)
            &&& #[trigger] io::plays_frame::<M>(layout, n - 1, middle, after)
        };
    if n == 1 {
        after
    } else {
        lemma_first_frame::<M>(layout, (n - 1) as nat, before, middle)
    }
}

/// A route with more channels than are there to be played plays those that are there, of its first
/// frame alone, and ends the playing.
pub proof fn missing_channels_end_the_playing<M: FloatMath>(
    context: &mut DeviceIo,
    rings: &mut Vec<RingBuffer>,
    metrics: &mut RouterMetrics,
    list: &mut Vec<AudioBuffer>,
    stopped: bool,
    frames: usize,
    read: spec_fn(Float32) -> int,
)
    requires
        old(context).wf(old(rings)@.len()),
        call_ensures(DeviceIo::play_incoming::<M>, (context, rings, metrics, list), stopped),
        call_ensures(audio_buffer_list_frames, (old(list),), Some(frames)),
        is_filled(old(list)@, frames as int),
        frames > 0,
        arithmetic::is_exact::<M>(read),
        read(Float32 { bits: 0 }) == 0,
        old(context).incoming@.len() == 1,
        old(context).incoming@[0].route@.primed,
        old(context).incoming@[0].route@.sink_channels > channels_before(
            old(list)@,
            old(list)@.len() as int,
        ),
    ensures
        stopped,
        final(context).incoming@.len() == 1,
        forall|f: int, c: int, buffer: int, at: int|
            0 <= f && 0 <= c && #[trigger] is_place(old(list)@, f, c, buffer, at) ==> read(
                final(list)@[buffer].samples@[at],
            ) == if f == 0 {
                contribution(read, final(context).incoming@[0].route@, c)
            } else {
                0
            },
{
    let slots = old(context).incoming@;
    let ends = io::sink_rings(slots);
    let layout = old(list)@;
    let ring = ends[0] as int;
    let total = channels_before(layout, layout.len() as int);
    lemma_channels_grow(layout, 0, layout.len() as int);
    assert(slots[0].ring < old(rings)@.len());
    let before = io::mixdown(slots, old(rings)@, *old(metrics), layout, false);
    let after = io::mixdown(
        final(context).incoming@,
        final(rings)@,
        *final(metrics),
        final(list)@,
        stopped,
    );
    let silent = Mixdown { samples: buffers::silenced(before.samples), ..before };
    assert(is_shaped(silent.samples, layout));
    let middle = choose|middle: Mixdown|
        {
            &&& io::plays_routes::<M>(layout, frames as nat, ends, 0, silent, middle)
            &&& #[trigger] io::plays_route::<M>(
                layout,
                frames as nat,
                0,
                ends[0] as int,
                middle,
                after,
            )
        };
    assert(middle == silent);
    let start = silent.voice(0, ring);
    let voice = choose|voice: Voice|
        #[trigger] io::plays_frames::<M>(layout, frames as nat, start, voice) && after
            == silent.with_voice(0, ring, voice);
    let first = lemma_first_frame::<M>(layout, frames as nat, start, voice);
    let (next, ready) = choose|next: Playing, ready: bool|
        {
            &&& #[trigger] incoming::turns::<M>(start.playing(), next, ready)
            &&& if ready {
                io::mixes_in::<M>(layout, 0, start.turned(next), first)
            } else {
                first == start.turned(next)
            }
        };
    playing::lemma_turn::<M>(start.playing(), next, ready);
    let turned = start.turned(next);
    let (n, samples) = choose|n: nat, samples: Seq<Seq<Float32>>|
        {
            &&& #[trigger] io::mixes::<M>(turned.route, layout, 0, n, turned.samples, samples)
            &&& n <= turned.route.sink_channels
            &&& if n == turned.route.sink_channels {
                first == turned.with_samples(samples)
            } else {
                &&& buffers::sample_place(layout, 0, n as int) is None
                &&& first == turned.with_samples(samples).broken()
            }
        };
    assert(n == total) by {
        if n < total {
            lemma_all_there(layout, frames as int, 0, n as int);
        }
        if n > total {
            lemma_mixed_places::<M>(turned.route, layout, 0, n, turned.samples, samples, total);
            lemma_channel_found(layout, total);
            let place = buffers::channel_place(layout, total)->0;
            lemma_channels_grow(layout, place.0 + 1, layout.len() as int);
        }
    }
    lemma_mixes::<M>(read, turned.route, layout, 0, n, turned.samples, samples);
    assert(final(context).incoming@[0].route@ == after.routes[0]);
    assert forall|f: int, c: int, buffer: int, at: int|
        0 <= f && 0 <= c && #[trigger] is_place(layout, f, c, buffer, at) implies read(
        final(list)@[buffer].samples@[at],
    ) == if f == 0 {
        contribution(read, final(context).incoming@[0].route@, c)
    } else {
        0
    } by {
        lemma_mul_nonnegative(f, layout[buffer].number_channels as int);
        lemma_channels_grow(layout, buffer + 1, layout.len() as int);
        assert(after.samples[buffer] == final(list)@[buffer].samples@);
        assert(silent.samples[buffer][at] == Float32 { bits: 0 });
    }
}

/// What is mixed has a place for each of its channels.
proof fn lemma_mixed_places<M: FloatMath>(
    route: IncomingView,
    layout: Seq<AudioBuffer>,
    frame: int,
    n: nat,
    before: Seq<Seq<Float32>>,
    after: Seq<Seq<Float32>>,
    channel: int,
)
    requires
        io::mixes::<M>(route, layout, frame, n, before, after),
        0 <= channel < n,
    ensures
        buffers::sample_place(layout, frame, channel) is Some,
    decreases n,
{
    if channel < n - 1 {
        let (middle, mixed) = choose|middle: Seq<Seq<Float32>>, mixed: Float32|
            {
                &&& io::mixes::<M>(route, layout, frame, (n - 1) as nat, before, middle)
                &&& crate::matrix::is_mixed::<M>(
                    route.row(n - 1),
                    route.interpolated,
                    route.gain,
                    mixed,
                )
                &&& #[trigger] buffers::is_added::<M>(
                    middle,
                    buffers::sample_place(layout, frame, n - 1)->0,
                    mixed,
                    after,
                )
            };
        lemma_mixed_places::<M>(
            route,
            layout,
            frame,
            (n - 1) as nat,
            before,
            middle,
            channel,
        );
    }
}

} // verus!
