//! A bounded queue of samples between one producer and one consumer.
use vstd::prelude::*;
use vstd::arithmetic::div_mod::*;
use vstd::arithmetic::mul::*;
use vstd::arithmetic::power2::*;
use crate::float::Float32;

verus! {

/// Why no ring buffer was made.
#[derive(Clone, Copy, Debug, Eq, PartialEq, Structural)]
pub enum RingBufferError {
    CapacityTooSmall,
    CapacityNotPowerOfTwo,
}

impl RingBufferError {
    /// The message that a person reads.
    pub open spec fn message(self) -> Seq<char> {
        match self {
            RingBufferError::CapacityTooSmall => "ring-buffer capacity must be at least two"@,
            RingBufferError::CapacityNotPowerOfTwo => {
                "ring-buffer capacity must be a power of two"@
            },
        }
    }

    /// The message that a person reads.
    pub fn text(&self) -> (message: String)
        ensures
            message@ == self.message(),
    {
        match self {
            RingBufferError::CapacityTooSmall => {
                "ring-buffer capacity must be at least two".to_owned()
            },
            RingBufferError::CapacityNotPowerOfTwo => {
                "ring-buffer capacity must be a power of two".to_owned()
            },
        }
    }
}

/// The samples that a producer has pushed and a consumer has not popped yet.
///
/// Both indices count samples from the start and wrap around. Their distance is the number of
/// queued samples.
pub struct RingBuffer {
    slots: Vec<Float32>,
    read: usize,
    write: usize,
}

/// The handle that pushes samples.
#[derive(Debug)]
pub struct Producer {
    capacity: usize,
}

/// The handle that pops samples.
#[derive(Debug)]
pub struct Consumer {
    capacity: usize,
}

/// The samples of `input` that still fit behind the queued ones.
pub open spec fn accepted(
    queued: Seq<Float32>,
    capacity: nat,
    input: Seq<Float32>,
) -> Seq<Float32> {
    if input.len() <= capacity - queued.len() {
        input
    } else {
        input.take(capacity - queued.len())
    }
}

/// The samples that come out where `n` are asked for.
pub open spec fn released(queued: Seq<Float32>, n: nat) -> Seq<Float32> {
    if n <= queued.len() {
        queued.take(n as int)
    } else {
        queued
    }
}

/// Samples leave in the order in which they came, and none that is queued is lost or replaced:
/// what comes out and what stays make up what was queued and what was accepted.
pub proof fn samples_keep_their_order(
    queued: Seq<Float32>,
    capacity: nat,
    input: Seq<Float32>,
    n: nat,
)
    requires
        queued.len() <= capacity,
    ensures
        ({
            let pushed = queued + accepted(queued, capacity, input);
            let popped = released(pushed, n);
            &&& popped + pushed.skip(popped.len() as int) == pushed
            &&& pushed.len() <= capacity
            &&& popped.is_prefix_of(queued + input)
        }),
{
    let pushed = queued + accepted(queued, capacity, input);
    let popped = released(pushed, n);
    assert(popped + pushed.skip(popped.len() as int) =~= pushed);
    assert(popped =~= (queued + input).subrange(0, popped.len() as int));
}

/// A larger power of two is at least twice as large.
pub proof fn lemma_pow2_gap(a: int, b: int)
    requires
        is_pow2(a),
        is_pow2(b),
        a < b,
    ensures
        2 * a <= b,
    decreases b,
{
    reveal_with_fuel(is_pow2, 2);
    if a > 1 {
        lemma_pow2_gap(a / 2, b / 2);
    }
}

/// A power of two divides the larger ones.
proof fn lemma_pow2_divides(a: int, b: int)
    requires
        is_pow2(a),
        is_pow2(b),
        a <= b,
    ensures
        b % a == 0,
    decreases b,
{
    reveal_with_fuel(is_pow2, 2);
    if a > 1 {
        lemma_pow2_divides(a / 2, b / 2);
        let k = (b / 2) / (a / 2);
        lemma_fundamental_div_mod(b / 2, a / 2);
        assert(b == k * a) by (nonlinear_arith)
            requires
                b / 2 == (a / 2) * k,
                a == 2 * (a / 2),
                b == 2 * (b / 2),
        ;
        lemma_mod_multiples_basic(k, a);
    }
}

/// The number of values that an index takes is a power of two.
proof fn lemma_index_range()
    ensures
        is_pow2(usize::MAX + 1),
{
    lemma2_to64();
    is_pow2_equiv(usize::MAX + 1);
    assert(usize::MAX + 1 == pow2(32) || usize::MAX + 1 == pow2(64));
    if usize::MAX + 1 == pow2(32) {
        assert(vstd::arithmetic::power::pow(2, 32) == usize::MAX + 1) by {
            lemma_pow2(32);
        }
    } else {
        assert(vstd::arithmetic::power::pow(2, 64) == usize::MAX + 1) by {
            lemma_pow2(64);
        }
    }
}

/// An index that wraps around still points at the same slot.
proof fn lemma_wrapped_slot(index: usize, offset: usize, capacity: int)
    requires
        is_pow2(capacity),
        0 < capacity <= usize::MAX + 1,
    ensures
        index.wrapping_add(offset) as int % capacity == (index + offset) % capacity,
{
    lemma_index_range();
    lemma_pow2_divides(capacity, usize::MAX + 1);
    let k = (usize::MAX + 1) / capacity;
    lemma_fundamental_div_mod(usize::MAX + 1, capacity);
    if index + offset > usize::MAX {
        let wrapped = index + offset - (usize::MAX + 1);
        assert(index.wrapping_add(offset) == wrapped);
        lemma_mod_multiples_vanish(k, wrapped, capacity);
    }
}

/// Within one capacity, different offsets have different slots.
proof fn lemma_slots_differ(base: int, a: int, b: int, capacity: int)
    requires
        0 <= a < b < capacity,
        0 <= base,
    ensures
        (base + a) % capacity != (base + b) % capacity,
{
    let p = (base + a) / capacity;
    let q = (base + b) / capacity;
    lemma_fundamental_div_mod(base + a, capacity);
    lemma_fundamental_div_mod(base + b, capacity);
    if (base + a) % capacity == (base + b) % capacity {
        assert(capacity * (q - p) == b - a) by (nonlinear_arith)
            requires
                base + a == capacity * p + (base + a) % capacity,
                base + b == capacity * q + (base + b) % capacity,
                (base + a) % capacity == (base + b) % capacity,
        ;
        assert(false) by (nonlinear_arith)
            requires
                capacity * (q - p) == b - a,
                0 < b - a < capacity,
        ;
    }
}

impl View for RingBuffer {
    type V = Seq<Float32>;

    /// The queued samples, the oldest first.
    closed spec fn view(&self) -> Seq<Float32> {
        Seq::new(
            self.distance(),
            |k: int| self.slots@[(self.read + k) % self.slots@.len() as int],
        )
    }
}

impl RingBuffer {
    /// The number of queued samples.
    closed spec fn distance(&self) -> nat {
        self.write.wrapping_sub(self.read) as nat
    }

    /// The number of slots is a power of two, and no more samples are queued than there are slots.
    #[verifier::type_invariant]
    closed spec fn wf(self) -> bool {
        &&& is_pow2(self.slots@.len() as int)
        &&& 2 <= self.slots@.len()
        &&& self.distance() <= self.slots@.len()
    }

    /// The number of samples that fit.
    pub closed spec fn capacity(self) -> nat {
        self.slots@.len()
    }

    /// The number of queued samples.
    pub(crate) fn queued(&self) -> (count: usize)
        ensures
            count == self@.len(),
            count <= self.capacity(),
            2 * self.capacity() <= usize::MAX + 1,
    {
        let slots: usize = self.slots.len();
        proof {
            use_type_invariant(self);
            lemma_index_range();
            lemma_pow2_gap(slots as int, usize::MAX + 1);
        }
        self.write.wrapping_sub(self.read)
    }

    /// The number of samples that still fit.
    fn free(&self) -> (count: usize)
        ensures
            count == self.capacity() - self@.len(),
    {
        proof {
            use_type_invariant(self);
        }
        self.slots.len() - self.write.wrapping_sub(self.read)
    }

    /// The queued sample that stands `offset` places behind the oldest one.
    pub fn peek(&self, offset: usize) -> (sample: Option<Float32>)
        ensures
            sample == (if offset < self@.len() {
                Some(self@[offset as int])
            } else {
                None
            }),
    {
        proof {
            use_type_invariant(self);
        }
        if offset >= self.write.wrapping_sub(self.read) {
            return None;
        }
        let capacity: usize = self.slots.len();
        proof {
            lemma_wrapped_slot(self.read, offset, capacity as int);
        }
        Some(self.slots[self.read.wrapping_add(offset) % capacity])
    }

    /// Queues a sample where there is room.
    fn push(&mut self, sample: Float32) -> (pushed: bool)
        ensures
            final(self).capacity() == old(self).capacity(),
            pushed == (old(self)@.len() < old(self).capacity()),
            final(self)@ == if pushed {
                old(self)@.push(sample)
            } else {
                old(self)@
            },
    {
        proof {
            use_type_invariant(&*self);
        }
        if self.write.wrapping_sub(self.read) == self.slots.len() {
            return false;
        }
        let capacity: usize = self.slots.len();
        let index: usize = self.write % capacity;
        let ghost distance = self.distance() as int;
        proof {
            lemma_wrapped_slot(self.read, self.write.wrapping_sub(self.read), capacity as int);
            assert(self.read.wrapping_add(self.write.wrapping_sub(self.read)) == self.write);
            assert forall|k: int| 0 <= k < distance implies index != #[trigger] ((self.read + k)
                % capacity as int) by {
                lemma_slots_differ(self.read as int, k, distance, capacity as int);
            }
        }
        self.slots[index] = sample;
        self.write = self.write.wrapping_add(1);
        assert(self.distance() == distance + 1);
        assert(self@ =~= old(self)@.push(sample));
        true
    }

    /// Takes the oldest sample.
    fn pop(&mut self) -> (sample: Option<Float32>)
        ensures
            final(self).capacity() == old(self).capacity(),
            match sample {
                Some(sample) => {
                    &&& old(self)@.len() > 0
                    &&& sample == old(self)@[0]
                    &&& final(self)@ == old(self)@.skip(1)
                },
                None => old(self)@.len() == 0 && final(self)@ == old(self)@,
            },
    {
        proof {
            use_type_invariant(&*self);
        }
        if self.write == self.read {
            return None;
        }
        let capacity: usize = self.slots.len();
        let index: usize = self.read % capacity;
        let sample = self.slots[index];
        let ghost distance = self.distance() as int;
        assert(old(self)@[0] == sample);
        self.read = self.read.wrapping_add(1);
        proof {
            assert(self.distance() == distance - 1);
            assert forall|k: int| 0 <= k < distance - 1 implies #[trigger] ((self.read + k)
                % capacity as int) == (old(self).read + (k + 1)) % capacity as int by {
                lemma_wrapped_slot(old(self).read, 1, capacity as int);
                let read = old(self).read as int;
                lemma_add_mod_noop(self.read as int, k, capacity as int);
                lemma_add_mod_noop(read + 1, k, capacity as int);
            }
            assert(self@ =~= old(self)@.skip(1));
        }
        Some(sample)
    }
}

/// `n` is a power of two.
fn power_of_two(n: usize) -> (yes: bool)
    ensures
        yes == is_pow2(n as int),
{
    if n == 0 {
        proof {
            reveal(is_pow2);
        }
        return false;
    }
    let mut m: usize = n;
    while m % 2 == 0
        invariant
            m > 0,
            is_pow2(m as int) == is_pow2(n as int),
        decreases m,
    {
        proof {
            reveal(is_pow2);
        }
        m = m / 2;
    }
    proof {
        reveal(is_pow2);
    }
    m == 1
}

/// `power` is the smallest power of two that is at least `n`.
pub open spec fn is_next_pow2(n: int, power: int) -> bool {
    &&& is_pow2(power)
    &&& n <= power
    &&& forall|other: int| #[trigger] is_pow2(other) && n <= other ==> power <= other
}

/// The smallest power of two that is at least `n`, where it is a `usize`.
pub(crate) fn next_power_of_two(n: usize) -> (power: Option<usize>)
    ensures
        match power {
            Some(power) => is_next_pow2(n as int, power as int),
            None => forall|other: int| #[trigger] is_pow2(other) && n <= other ==> other > usize::MAX,
        },
{
    let mut power: usize = 1;
    assert(is_pow2(1)) by {
        reveal(is_pow2);
    }
    assert(forall|other: int| #[trigger] is_pow2(other) ==> other >= 1) by {
        reveal(is_pow2);
    }
    while power < n
        invariant
            is_pow2(power as int),
            power >= 1,
            forall|other: int| #[trigger] is_pow2(other) && n <= other ==> power <= other,
        decreases usize::MAX - power,
    {
        proof {
            assert forall|other: int| #[trigger] is_pow2(other) && n <= other implies 2 * power
                <= other by {
                lemma_pow2_gap(power as int, other);
            }
        }
        match power.checked_mul(2) {
            Some(twice) => {
                assert(is_pow2(twice as int)) by {
                    reveal(is_pow2);
                }
                power = twice;
            },
            None => {
                return None;
            },
        }
    }
    Some(power)
}

/// What is wrong with a capacity.
pub open spec fn capacity_error(capacity: nat) -> Option<RingBufferError> {
    if capacity < 2 {
        Some(RingBufferError::CapacityTooSmall)
    } else if !is_pow2(capacity as int) {
        Some(RingBufferError::CapacityNotPowerOfTwo)
    } else {
        None
    }
}

/// Makes an empty ring buffer and the two handles that use it.
pub fn spsc_ring_buffer(capacity: usize) -> (result: Result<
    (Producer, Consumer, RingBuffer),
    RingBufferError,
>)
    ensures
        match result {
            Ok((producer, consumer, ring)) => {
                &&& capacity_error(capacity as nat) is None
                &&& producer.slots() == capacity
                &&& consumer.slots() == capacity
                &&& ring.capacity() == capacity
                &&& ring@ == Seq::<Float32>::empty()
            },
            Err(error) => capacity_error(capacity as nat) == Some(error),
        },
{
    if capacity < 2 {
        return Err(RingBufferError::CapacityTooSmall);
    }
    if !power_of_two(capacity) {
        return Err(RingBufferError::CapacityNotPowerOfTwo);
    }
    let slots = silence(capacity);
    let ring = RingBuffer { slots, read: 0, write: 0 };
    assert(ring@ =~= Seq::<Float32>::empty());
    Ok((Producer { capacity }, Consumer { capacity }, ring))
}

/// Samples that are all zero.
pub(crate) fn silence(count: usize) -> (samples: Vec<Float32>)
    ensures
        samples@ == silent(count as nat),
{
    let mut samples: Vec<Float32> = Vec::with_capacity(count);
    while samples.len() < count
        invariant
            samples@.len() <= count,
            samples@ == silent(samples@.len()),
        decreases count - samples.len(),
    {
        samples.push(Float32::zero());
        assert(samples@ =~= silent(samples@.len()));
    }
    samples
}

/// Samples that are all zero.
pub open spec fn silent(count: nat) -> Seq<Float32> {
    Seq::new(count, |i: int| Float32::zero_value())
}

impl Producer {
    /// The number of samples that fit in the ring.
    pub closed spec fn slots(self) -> usize {
        self.capacity
    }

    /// The number of samples that fit in the ring.
    pub fn capacity(&self) -> (capacity: usize)
        ensures
            capacity == self.slots(),
    {
        self.capacity
    }

    /// The number of samples that can be pushed before some are popped.
    pub fn available(&self, ring: &RingBuffer) -> (count: usize)
        ensures
            count == ring.capacity() - ring@.len(),
    {
        ring.free()
    }

    /// Writes as many samples as fit and returns the written sample count.
    pub fn push_slice(&mut self, ring: &mut RingBuffer, input: &[Float32]) -> (count: usize)
        ensures
            *final(self) == *old(self),
            final(ring).capacity() == old(ring).capacity(),
            final(ring)@ == old(ring)@ + accepted(old(ring)@, old(ring).capacity(), input@),
            count == accepted(old(ring)@, old(ring).capacity(), input@).len(),
    {
        let mut count: usize = 0;
        let free = ring.free();
        let limit: usize = if input.len() <= free {
            input.len()
        } else {
            free
        };
        assert(input@.take(0) =~= Seq::<Float32>::empty());
        while count < limit
            invariant
                count <= limit <= input@.len(),
                limit <= old(ring).capacity() - old(ring)@.len(),
                ring.capacity() == old(ring).capacity(),
                ring@ == old(ring)@ + input@.take(count as int),
            decreases limit - count,
        {
            let pushed = ring.push(input[count]);
            assert(ring@ =~= old(ring)@ + input@.take(count + 1));
            count = count + 1;
        }
        assert(input@.take(limit as int) =~= accepted(old(ring)@, old(ring).capacity(), input@));
        count
    }

    /// Writes one sample, returning `false` when the buffer is full.
    pub fn push(&mut self, ring: &mut RingBuffer, sample: Float32) -> (pushed: bool)
        ensures
            *final(self) == *old(self),
            final(ring).capacity() == old(ring).capacity(),
            pushed == (old(ring)@.len() < old(ring).capacity()),
            final(ring)@ == if pushed {
                old(ring)@.push(sample)
            } else {
                old(ring)@
            },
    {
        ring.push(sample)
    }
}

impl Consumer {
    /// The number of samples that fit in the ring.
    pub closed spec fn slots(self) -> usize {
        self.capacity
    }

    /// The number of samples that fit in the ring.
    pub fn capacity(&self) -> (capacity: usize)
        ensures
            capacity == self.slots(),
    {
        self.capacity
    }

    /// The number of samples that can be popped.
    pub fn available(&self, ring: &RingBuffer) -> (count: usize)
        ensures
            count == ring@.len(),
            count <= ring.capacity(),
            2 * ring.capacity() <= usize::MAX + 1,
    {
        ring.queued()
    }

    /// Reads as many samples as available and returns the read sample count.
    pub fn pop_slice(&mut self, ring: &mut RingBuffer, output: &mut [Float32]) -> (count: usize)
        ensures
            *final(self) == *old(self),
            final(ring).capacity() == old(ring).capacity(),
            count == released(old(ring)@, old(output)@.len()).len(),
            final(ring)@ == old(ring)@.skip(count as int),
            final(output)@ == released(old(ring)@, old(output)@.len()) + old(output)@.skip(
                count as int,
            ),
    {
        let mut count: usize = 0;
        let queued = ring.queued();
        let limit: usize = if output.len() <= queued {
            output.len()
        } else {
            queued
        };
        assert(ring@.skip(0) =~= ring@);
        while count < limit
            invariant
                count <= limit <= old(output)@.len(),
                limit <= old(ring)@.len(),
                ring.capacity() == old(ring).capacity(),
                ring@ == old(ring)@.skip(count as int),
                output@.len() == old(output)@.len(),
                forall|k: int| 0 <= k < count ==> output@[k] == old(ring)@[k],
                forall|k: int| count <= k < output@.len() ==> output@[k] == old(output)@[k],
            decreases limit - count,
        {
            if let Some(sample) = ring.pop() {
                output[count] = sample;
            }
            assert(ring@ =~= old(ring)@.skip(count + 1));
            count = count + 1;
        }
        assert(output@ =~= released(old(ring)@, old(output)@.len()) + old(output)@.skip(
            count as int,
        ));
        count
    }

    /// Reads one sample, returning `None` when the buffer is empty.
    pub fn pop(&mut self, ring: &mut RingBuffer) -> (sample: Option<Float32>)
        ensures
            *final(self) == *old(self),
            final(ring).capacity() == old(ring).capacity(),
            match sample {
                Some(sample) => {
                    &&& old(ring)@.len() > 0
                    &&& sample == old(ring)@[0]
                    &&& final(ring)@ == old(ring)@.skip(1)
                },
                None => old(ring)@.len() == 0 && final(ring)@ == old(ring)@,
            },
    {
        ring.pop()
    }
}

} // verus!
