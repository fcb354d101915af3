//! The buffers that a device hands to its callback.
use vstd::prelude::*;
use vstd::arithmetic::div_mod::*;
use vstd::arithmetic::mul::*;
use crate::float::{Float32, FloatMath};
use crate::ring;

verus! {

/// A buffer of interleaved samples.
///
/// The samples are those that the bytes of the buffer hold, four bytes for each. A buffer without
/// data has none, whatever its size is said to be.
#[derive(Clone, Debug, PartialEq)]
pub struct AudioBuffer {
    pub number_channels: u32,
    pub data_byte_size: u32,
    pub has_data: bool,
    pub samples: Vec<Float32>,
}

impl AudioBuffer {
    /// The number of whole frames, where the buffer holds nothing else.
    pub open spec fn frames(self) -> Option<int> {
        if self.number_channels == 0 || !self.has_data {
            None
        } else if self.data_byte_size as int % (self.number_channels * 4) != 0 {
            None
        } else {
            Some(self.data_byte_size as int / (self.number_channels * 4))
        }
    }
}

/// The number of frames that all the buffers hold.
pub open spec fn list_frames(list: Seq<AudioBuffer>) -> Option<int> {
    if list.len() == 0 {
        Some(0)
    } else if forall|i: int| 0 <= i < list.len() ==> (#[trigger] list[i]).frames()
        == list[0].frames() {
        list[0].frames()
    } else {
        None
    }
}

/// The number of frames that all the buffers hold, or nothing where they do not agree or a buffer
/// holds something else.
pub fn audio_buffer_list_frames(list: &Vec<AudioBuffer>) -> (frames: Option<usize>)
    ensures
        match frames {
            Some(frames) => list_frames(list@) == Some(frames as int) && frames <= u32::MAX,
            None => list_frames(list@) is None,
        },
{
    let mut frames: Option<usize> = Some(0);
    let mut index: usize = 0;
    while index < list.len()
        invariant
            index <= list@.len(),
            index == 0 ==> frames == Some(0usize),
            index > 0 ==> (frames matches Some(count) && count <= u32::MAX && list@[0].frames()
                == Some(count as int)),
            forall|i: int| 0 <= i < index ==> (#[trigger] list@[i]).frames() == list@[0].frames(),
        decreases list.len() - index,
    {
        let buffer = &list[index];
        if buffer.number_channels == 0 || !buffer.has_data {
            assert(list@[index as int].frames() is None);
            return None;
        }
        let bytes_per_frame: u64 = buffer.number_channels as u64 * 4;
        let size: u64 = buffer.data_byte_size as u64;
        if size % bytes_per_frame != 0 {
            assert(list@[index as int].frames() is None);
            return None;
        }
        proof {
            lemma_div_is_ordered_by_denominator(size as int, 1, bytes_per_frame as int);
            lemma_div_basics(size as int);
        }
        let current: usize = (size / bytes_per_frame) as usize;
        assert(list@[index as int].frames() == Some(current as int));
        if index > 0 && frames != Some(current) {
            return None;
        }
        frames = Some(current);
        index = index + 1;
    }
    frames
}

/// The buffer that holds a channel and the place of the channel in its frames, counting channels
/// through all buffers.
pub open spec fn channel_place(list: Seq<AudioBuffer>, channel: int) -> Option<(int, int)>
    decreases list.len(),
{
    if list.len() == 0 {
        None
    } else if channel < list[0].number_channels {
        Some((0, channel))
    } else {
        match channel_place(list.skip(1), channel - list[0].number_channels) {
            Some((buffer, local)) => Some((buffer + 1, local)),
            None => None,
        }
    }
}

/// The buffer that holds a channel's sample of a frame, and the sample's place in it.
pub open spec fn sample_place(list: Seq<AudioBuffer>, frame: int, channel: int) -> Option<
    (int, int),
> {
    match channel_place(list, channel) {
        Some((buffer, local)) => {
            let at = frame * list[buffer].number_channels + local;
            if at < list[buffer].samples@.len() {
                Some((buffer, at))
            } else {
                None
            }
        },
        None => None,
    }
}

/// The place that was found behind the first `skipped` buffers.
proof fn lemma_channel_place(list: Seq<AudioBuffer>, skipped: int, channel: int, rest: int)
    requires
        0 <= skipped <= list.len(),
        0 <= rest,
        channel_place(list, channel) == match channel_place(list.skip(skipped), rest) {
            Some((buffer, local)) => Some((buffer + skipped, local)),
            None => None,
        },
    ensures
        skipped == list.len() ==> channel_place(list, channel) is None,
        skipped < list.len() && rest < list[skipped].number_channels ==> channel_place(
            list,
            channel,
        ) == Some((skipped, rest)),
        skipped < list.len() && rest >= list[skipped].number_channels ==> channel_place(
            list,
            channel,
        ) == match channel_place(list.skip(skipped + 1), rest - list[skipped].number_channels) {
            Some((buffer, local)) => Some((buffer + skipped + 1, local)),
            None => None,
        },
{
    if skipped < list.len() {
        assert(list.skip(skipped).skip(1) =~= list.skip(skipped + 1));
    }
}

/// A place lies in the list, and in a frame of its buffer.
pub proof fn lemma_place_bounds(list: Seq<AudioBuffer>, channel: int)
    requires
        0 <= channel,
    ensures
        channel_place(list, channel) matches Some((buffer, local)) ==> 0 <= buffer < list.len()
            && 0 <= local < list[buffer].number_channels,
    decreases list.len(),
{
    if list.len() > 0 && channel >= list[0].number_channels {
        lemma_place_bounds(list.skip(1), channel - list[0].number_channels);
    }
}

/// Finds the sample of a channel in a frame.
fn find_sample(list: &Vec<AudioBuffer>, frame: usize, channel: usize) -> (place: Option<
    (usize, usize),
>)
    ensures
        match place {
            Some((buffer, at)) => {
                &&& sample_place(list@, frame as int, channel as int) == Some(
                    (buffer as int, at as int),
                )
                &&& buffer < list@.len()
                &&& at < list@[buffer as int].samples@.len()
            },
            None => sample_place(list@, frame as int, channel as int) is None,
        },
{
    let mut rest: usize = channel;
    let mut index: usize = 0;
    assert(list@.skip(0) =~= list@);
    while index < list.len()
        invariant
            index <= list@.len(),
            channel_place(list@, channel as int) == match channel_place(
                list@.skip(index as int),
                rest as int,
            ) {
                Some((buffer, local)) => Some((buffer + index, local)),
                None => None,
            },
        decreases list.len() - index,
    {
        proof {
            lemma_channel_place(list@, index as int, channel as int, rest as int);
        }
        let channels: usize = list[index].number_channels as usize;
        if rest < channels {
            let length: usize = list[index].samples.len();
            let start: usize = match frame.checked_mul(channels) {
                Some(start) => start,
                None => {
                    return None;
                },
            };
            let at: usize = match start.checked_add(rest) {
                Some(at) => at,
                None => {
                    return None;
                },
            };
            if at >= length {
                return None;
            }
            return Some((index, at));
        }
        rest = rest - channels;
        index = index + 1;
    }
    proof {
        lemma_channel_place(list@, index as int, channel as int, rest as int);
    }
    None
}

/// The sample of a channel in a frame, where there is one.
pub fn read_audio_sample(list: &Vec<AudioBuffer>, frame: usize, channel: usize) -> (sample: Option<
    Float32,
>)
    ensures
        match sample_place(list@, frame as int, channel as int) {
            Some((buffer, at)) => sample == Some(list@[buffer].samples@[at]),
            None => sample is None,
        },
{
    match find_sample(list, frame, channel) {
        Some((buffer, at)) => Some(list[buffer].samples[at]),
        None => None,
    }
}

/// The samples of all buffers.
pub open spec fn contents(list: Seq<AudioBuffer>) -> Seq<Seq<Float32>> {
    list.map_values(|buffer: AudioBuffer| buffer.samples@)
}

/// The lists differ in nothing but samples.
pub open spec fn same_layout(left: Seq<AudioBuffer>, right: Seq<AudioBuffer>) -> bool {
    &&& left.len() == right.len()
    &&& forall|i: int|
        0 <= i < left.len() ==> {
            &&& (#[trigger] left[i]).number_channels == right[i].number_channels
            &&& left[i].data_byte_size == right[i].data_byte_size
            &&& left[i].has_data == right[i].has_data
            &&& left[i].samples@.len() == right[i].samples@.len()
        }
}

/// Where samples stand depends on the layout only.
pub proof fn lemma_same_places(
    left: Seq<AudioBuffer>,
    right: Seq<AudioBuffer>,
    frame: int,
    channel: int,
)
    requires
        same_layout(left, right),
        0 <= channel,
    ensures
        sample_place(left, frame, channel) == sample_place(right, frame, channel),
        channel_place(left, channel) == channel_place(right, channel),
        list_frames(left) == list_frames(right),
    decreases left.len(),
{
    if left.len() > 0 {
        if channel >= left[0].number_channels {
            let rest = channel - left[0].number_channels;
            assert(same_layout(left.skip(1), right.skip(1))) by {
                assert forall|i: int| 0 <= i < left.skip(1).len() implies {
                    &&& (#[trigger] left.skip(1)[i]).number_channels
                        == right.skip(1)[i].number_channels
                    &&& left.skip(1)[i].data_byte_size == right.skip(1)[i].data_byte_size
                    &&& left.skip(1)[i].has_data == right.skip(1)[i].has_data
                    &&& left.skip(1)[i].samples@.len() == right.skip(1)[i].samples@.len()
                } by {
                    assert(left[i + 1].number_channels == right[i + 1].number_channels);
                }
            }
            lemma_same_places(left.skip(1), right.skip(1), frame, rest);
        }
        lemma_place_bounds(left, channel);
    }
    assert forall|i: int| 0 <= i < left.len() implies (#[trigger] left[i]).frames()
        == right[i].frames() by {}
    if left.len() > 0 {
        assert(left[0].frames() == right[0].frames());
        if forall|i: int| 0 <= i < left.len() ==> (#[trigger] left[i]).frames()
            == left[0].frames() {
            assert forall|i: int| 0 <= i < right.len() implies (#[trigger] right[i]).frames()
                == right[0].frames() by {
                assert(left[i].frames() == left[0].frames());
            }
        }
        if forall|i: int| 0 <= i < right.len() ==> (#[trigger] right[i]).frames()
            == right[0].frames() {
            assert forall|i: int| 0 <= i < left.len() implies (#[trigger] left[i]).frames()
                == left[0].frames() by {
                assert(right[i].frames() == right[0].frames());
            }
        }
    }
}

/// `after` is `before` with `value` added to the sample of a channel in a frame.
pub open spec fn is_added<M: FloatMath>(
    before: Seq<Seq<Float32>>,
    place: (int, int),
    value: Float32,
    after: Seq<Seq<Float32>>,
) -> bool {
    exists|sum: Float32|
        {
            &&& #[trigger] call_ensures(M::add, (before[place.0][place.1], value), sum)
            &&& after == before.update(place.0, before[place.0].update(place.1, sum))
        }
}

/// Adds a value to the sample of a channel in a frame, where there is one.
pub fn add_audio_sample<M: FloatMath>(
    list: &mut Vec<AudioBuffer>,
    frame: usize,
    channel: usize,
    value: Float32,
) -> (added: bool)
    ensures
        same_layout(final(list)@, old(list)@),
        match sample_place(old(list)@, frame as int, channel as int) {
            Some(place) => added && is_added::<M>(
                contents(old(list)@),
                place,
                value,
                contents(final(list)@),
            ),
            None => !added && final(list)@ == old(list)@,
        },
{
    match find_sample(list, frame, channel) {
        Some((buffer, at)) => {
            let before = list[buffer].samples[at];
            let sum = M::add(before, value);
            list[buffer].samples[at] = sum;
            proof {
                let samples = contents(old(list)@);
                assert(call_ensures(M::add, (samples[buffer as int][at as int], value), sum));
                assert(contents(list@) =~= samples.update(
                    buffer as int,
                    samples[buffer as int].update(at as int, sum),
                ));
            }
            true
        },
        None => false,
    }
}

/// Buffers with silence in place of their samples.
pub open spec fn silenced(samples: Seq<Seq<Float32>>) -> Seq<Seq<Float32>> {
    samples.map_values(|buffer: Seq<Float32>| ring::silent(buffer.len()))
}

/// Puts silence into all buffers.
pub fn clear_audio_buffer_list(list: &mut Vec<AudioBuffer>)
    ensures
        same_layout(final(list)@, old(list)@),
        contents(final(list)@) == silenced(contents(old(list)@)),
{
    let mut index: usize = 0;
    while index < list.len()
        invariant
            index <= list@.len(),
            same_layout(list@, old(list)@),
            forall|i: int|
                0 <= i < index ==> (#[trigger] list@[i]).samples@ == ring::silent(
                    old(list)@[i].samples@.len(),
                ),
            forall|i: int| index <= i < list@.len() ==> list@[i] == old(list)@[i],
        decreases list.len() - index,
    {
        let mut at: usize = 0;
        let length: usize = list[index].samples.len();
        while at < length
            invariant
                index < list@.len(),
                same_layout(list@, old(list)@),
                length == list@[index as int].samples@.len(),
                at <= length,
                forall|k: int|
                    0 <= k < at ==> list@[index as int].samples@[k] == Float32::zero_value(),
                forall|i: int|
                    0 <= i < index ==> (#[trigger] list@[i]).samples@ == ring::silent(
                        old(list)@[i].samples@.len(),
                    ),
                forall|i: int| index < i < list@.len() ==> list@[i] == old(list)@[i],
            decreases length - at,
        {
            list[index].samples[at] = Float32::zero();
            at = at + 1;
        }
        assert(list@[index as int].samples@ =~= ring::silent(
            old(list)@[index as int].samples@.len(),
        ));
        index = index + 1;
    }
    assert(contents(list@) =~= silenced(contents(old(list)@)));
}

} // verus!
