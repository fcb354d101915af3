//! Laws of the queue between a producer and a consumer.
use vstd::prelude::*;
use vstd::arithmetic::power2::*;
use crate::float::Float32;
use crate::ring::{spsc_ring_buffer, Consumer, Producer, RingBuffer, RingBufferError};

verus! {

/// Queues have room for a power of two of samples, and for two at least. They start out empty.
pub proof fn queues_have_room_for_a_power_of_two(
    capacity: usize,
    result: Result<(Producer, Consumer, RingBuffer), RingBufferError>,
)
    requires
        call_ensures(spsc_ring_buffer, (capacity,), result),
    ensures
        result is Ok <==> 2 <= capacity && is_pow2(capacity as int),
        result matches Ok((producer, consumer, ring)) ==> {
            &&& ring.capacity() == capacity
            &&& ring@.len() == 0
            &&& producer.slots() == capacity
            &&& consumer.slots() == capacity
        },
        capacity < 2 ==> result == Err::<(Producer, Consumer, RingBuffer), RingBufferError>(
            RingBufferError::CapacityTooSmall,
        ),
        2 <= capacity && !is_pow2(capacity as int) ==> result == Err::<
            (Producer, Consumer, RingBuffer),
            RingBufferError,
        >(RingBufferError::CapacityNotPowerOfTwo),
{
}

/// Pushing queues as many samples as fit, from the first on and in their order, behind those that
/// are queued.
pub proof fn pushing_queues_what_fits(
    producer: &mut Producer,
    ring: &mut RingBuffer,
    input: &[Float32],
    count: usize,
)
    requires
        call_ensures(Producer::push_slice, (producer, ring, input), count),
        old(ring)@.len() <= old(ring).capacity(),
    ensures
        count <= input@.len(),
        old(ring)@.len() + count <= old(ring).capacity(),
        count < input@.len() ==> old(ring)@.len() + count == old(ring).capacity(),
        final(ring).capacity() == old(ring).capacity(),
        final(ring)@.len() == old(ring)@.len() + count,
        forall|k: int| 0 <= k < old(ring)@.len() ==> #[trigger] final(ring)@[k] == old(ring)@[k],
        forall|k: int|
            0 <= k < count ==> final(ring)@[old(ring)@.len() + k] == #[trigger] input@[k],
{
}

/// Popping takes as many samples as are asked for and queued, from the oldest on and in their order.
pub proof fn popping_takes_the_oldest(
    consumer: &mut Consumer,
    ring: &mut RingBuffer,
    output: &mut [Float32],
    count: usize,
)
    requires
        call_ensures(Consumer::pop_slice, (consumer, ring, output), count),
    ensures
        count <= old(output)@.len(),
        count <= old(ring)@.len(),
        count == old(output)@.len() || count == old(ring)@.len(),
        final(ring).capacity() == old(ring).capacity(),
        final(ring)@.len() == old(ring)@.len() - count,
        forall|k: int|
            0 <= k < final(ring)@.len() ==> #[trigger] final(ring)@[k] == old(ring)@[count + k],
        final(output)@.len() == old(output)@.len(),
        forall|k: int| 0 <= k < count ==> #[trigger] final(output)@[k] == old(ring)@[k],
        forall|k: int|
            count <= k < final(output)@.len() ==> #[trigger] final(output)@[k] == old(output)@[k],
{
}

/// One sample is pushed behind the queued ones where there is room.
pub proof fn one_sample_is_pushed_behind_the_others(
    producer: &mut Producer,
    ring: &mut RingBuffer,
    sample: Float32,
    pushed: bool,
)
    requires
        call_ensures(Producer::push, (producer, ring, sample), pushed),
    ensures
        pushed <==> old(ring)@.len() < old(ring).capacity(),
        final(ring).capacity() == old(ring).capacity(),
        pushed ==> final(ring)@.len() == old(ring)@.len() + 1 && final(ring)@.last() == sample
            && final(ring)@.drop_last() == old(ring)@,
        !pushed ==> final(ring)@ == old(ring)@,
{
    if pushed {
        assert(final(ring)@.drop_last() =~= old(ring)@);
    }
}

/// One sample is popped, the oldest.
pub proof fn one_sample_is_popped_from_the_front(
    consumer: &mut Consumer,
    ring: &mut RingBuffer,
    sample: Option<Float32>,
)
    requires
        call_ensures(Consumer::pop, (consumer, ring), sample),
    ensures
        sample is Some <==> old(ring)@.len() > 0,
        final(ring).capacity() == old(ring).capacity(),
        sample matches Some(sample) ==> old(ring)@ == seq![sample] + final(ring)@,
        sample is None ==> final(ring)@ == old(ring)@,
{
    if let Some(sample) = sample {
        assert(old(ring)@ =~= seq![sample] + final(ring)@);
    }
}

/// What a producer can push and what a consumer can pop make up the room of the queue.
pub proof fn room_and_samples_make_up_the_queue(
    producer: Producer,
    consumer: Consumer,
    ring: RingBuffer,
    free: usize,
    queued: usize,
)
    requires
        call_ensures(Producer::available, (&producer, &ring), free),
        call_ensures(Consumer::available, (&consumer, &ring), queued),
    ensures
        queued == ring@.len(),
        free + queued == ring.capacity(),
{
}

/// Looking at a sample gives the one that stands so far behind the oldest.
pub proof fn samples_are_seen_where_they_stand(
    ring: RingBuffer,
    offset: usize,
    sample: Option<Float32>,
)
    requires
        call_ensures(RingBuffer::peek, (&ring, offset), sample),
    ensures
        sample is Some <==> offset < ring@.len(),
        sample matches Some(sample) ==> sample == ring@[offset as int],
{
}

/// What is pushed to an empty queue and fits comes out as it was, in the same order.
pub proof fn what_is_pushed_comes_out(
    producer: &mut Producer,
    ring: &mut RingBuffer,
    input: &[Float32],
    pushed: usize,
    consumer: &mut Consumer,
    output: &mut [Float32],
    popped: usize,
    later: &mut RingBuffer,
)
    requires
        call_ensures(Producer::push_slice, (producer, ring, input), pushed),
        old(ring)@.len() == 0,
        input@.len() <= old(ring).capacity(),
        *old(later) == *final(ring),
        call_ensures(Consumer::pop_slice, (consumer, later, output), popped),
        old(output)@.len() == input@.len(),
    ensures
        popped == input@.len(),
        final(output)@ == input@,
        final(later)@.len() == 0,
{
    assert(final(output)@ =~= input@);
}

} // verus!
