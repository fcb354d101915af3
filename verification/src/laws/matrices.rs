//! Laws of channel matrices.
use vstd::prelude::*;
use vstd::arithmetic::div_mod::*;
use vstd::arithmetic::mul::*;
use crate::float::{Float32, FloatMath};
use crate::laws::arithmetic;
use crate::matrix;
use crate::matrix::{ChannelMatrix, MatrixError};

verus! {

/// A matrix has a coefficient for each pair of an output and an input.
pub open spec fn is_whole(m: ChannelMatrix) -> bool {
    &&& m.outputs() > 0
    &&& m.inputs() > 0
    &&& m.values().len() == m.outputs() * m.inputs()
}

/// Mixing adds to each sample of the output the row of its channel, applied to the frame of the
/// input that stands at the same place, times the gain.
pub proof fn mixing_adds_the_row_of_each_output<M: FloatMath>(
    m: ChannelMatrix,
    frames: usize,
    input: &[Float32],
    output: &mut [Float32],
    gain: Float32,
    frame: int,
    channel: int,
)
    requires
        is_whole(m),
        call_ensures(
            ChannelMatrix::mix_interleaved::<M>,
            (&m, frames, input, output, gain),
            Ok::<(), MatrixError>(()),
        ),
        0 <= frame < frames,
        0 <= channel < m.outputs(),
    ensures
        input@.len() == frames * m.inputs(),
        final(output)@.len() == old(output)@.len() == frames * m.outputs(),
        ({
            let at = frame * m.outputs() + channel;
            let samples = input@.subrange(
                frame * m.inputs(),
                frame * m.inputs() + m.inputs(),
            );
            &&& 0 <= at < final(output)@.len()
            &&& exists|mixed: Float32|
                {
                    &&& #[trigger] arithmetic::is_row_applied::<M>(
                        m.values(),
                        channel * m.inputs(),
                        samples,
                        gain,
                        mixed,
                    )
                    &&& call_ensures(M::add, (old(output)@[at], mixed), final(output)@[at])
                }
        }),
{
    let outputs = m.outputs() as int;
    let inputs = m.inputs() as int;
    let at = frame * outputs + channel;
    lemma_mul_inequality(frame + 1, frames as int, outputs);
    lemma_mul_is_distributive_add_other_way(outputs, frame, 1);
    lemma_mul_nonnegative(frame, outputs);
    lemma_fundamental_div_mod_converse(at, outputs, frame, channel);
    lemma_mul_inequality(frame + 1, frames as int, inputs);
    lemma_mul_is_distributive_add_other_way(inputs, frame, 1);
    lemma_mul_nonnegative(frame, inputs);
    lemma_mul_inequality(channel + 1, outputs, inputs);
    lemma_mul_is_distributive_add_other_way(inputs, channel, 1);
    lemma_mul_nonnegative(channel, inputs);
    let samples = input@.subrange(frame * inputs, frame * inputs + inputs);
    assert(matrix::is_mixed_into::<M>(
        old(output)@[at],
        m.row(at % outputs),
        matrix::input_frame(input@, inputs, at / outputs),
        gain,
        final(output)@[at],
    ));
    let mixed = choose|mixed: Float32|
        #[trigger] matrix::is_mixed::<M>(m.row(channel), samples, gain, mixed) && call_ensures(
            M::add,
            (old(output)@[at], mixed),
            final(output)@[at],
        );
    arithmetic::lemma_mixed::<M>(
        m.row(channel),
        m.values(),
        channel * inputs,
        samples,
        gain,
        mixed,
    );
}

/// Where sums and products are exact, mixing adds the product of the matrix and the frame, times the
/// gain.
pub proof fn mixing_multiplies_by_the_matrix<M: FloatMath>(
    m: ChannelMatrix,
    frames: usize,
    input: &[Float32],
    output: &mut [Float32],
    gain: Float32,
    frame: int,
    channel: int,
    read: spec_fn(Float32) -> int,
)
    requires
        is_whole(m),
        call_ensures(
            ChannelMatrix::mix_interleaved::<M>,
            (&m, frames, input, output, gain),
            Ok::<(), MatrixError>(()),
        ),
        0 <= frame < frames,
        0 <= channel < m.outputs(),
        arithmetic::is_exact::<M>(read),
    ensures
        ({
            let at = frame * m.outputs() + channel;
            let samples = input@.subrange(
                frame * m.inputs(),
                frame * m.inputs() + m.inputs(),
            );
            read(final(output)@[at]) == read(old(output)@[at]) + arithmetic::weighted(
                read,
                m.values(),
                channel * m.inputs(),
                samples,
                m.inputs() as nat,
            ) * read(gain)
        }),
{
    mixing_adds_the_row_of_each_output::<M>(m, frames, input, output, gain, frame, channel);
    let at = frame * m.outputs() + channel;
    let samples = input@.subrange(frame * m.inputs(), frame * m.inputs() + m.inputs());
    lemma_mul_inequality(frame + 1, frames as int, m.inputs() as int);
    lemma_mul_is_distributive_add_other_way(m.inputs() as int, frame, 1);
    lemma_mul_nonnegative(frame, m.inputs() as int);
    let mixed = choose|mixed: Float32|
        {
            &&& #[trigger] arithmetic::is_row_applied::<M>(
                m.values(),
                channel * m.inputs(),
                samples,
                gain,
                mixed,
            )
            &&& call_ensures(M::add, (old(output)@[at], mixed), final(output)@[at])
        };
    arithmetic::lemma_row_read::<M>(
        read,
        m.values(),
        channel * m.inputs(),
        samples,
        gain,
        mixed,
    );
}

/// Mixing is refused where the buffers do not have the matrix's channels for each frame, or the gain
/// is not finite, and changes nothing then.
pub proof fn mixing_needs_buffers_that_fit<M: FloatMath>(
    m: ChannelMatrix,
    frames: usize,
    input: &[Float32],
    output: &mut [Float32],
    gain: Float32,
    result: Result<(), MatrixError>,
)
    requires
        is_whole(m),
        input@.len() <= usize::MAX,
        old(output)@.len() <= usize::MAX,
        call_ensures(
            ChannelMatrix::mix_interleaved::<M>,
            (&m, frames, input, output, gain),
            result,
        ),
    ensures
        result is Ok <==> input@.len() == frames * m.inputs() && old(output)@.len() == frames
            * m.outputs() && gain.finite(),
        result is Err ==> final(output)@ == old(output)@,
        result matches Err(error) ==> error == if frames * m.inputs() > usize::MAX || frames
            * m.outputs() > usize::MAX {
            MatrixError::FrameCountOverflow
        } else {
            MatrixError::BufferLengthMismatch
        },
{
}

/// A matrix is made where both channel counts are positive and there is a finite coefficient for
/// each pair of them. The first thing that is wrong is the error.
pub proof fn matrices_have_finite_coefficients_for_all_pairs(
    outputs: usize,
    inputs: usize,
    coefficients: Vec<Float32>,
    result: Result<ChannelMatrix, MatrixError>,
)
    requires
        coefficients@.len() <= usize::MAX,
        call_ensures(ChannelMatrix::new, (outputs, inputs, coefficients), result),
    ensures
        ({
            let finite = forall|k: int|
                0 <= k < coefficients@.len() ==> (#[trigger] coefficients@[k]).finite();
            &&& result is Ok <==> outputs > 0 && inputs > 0 && coefficients@.len() == outputs
                * inputs && finite
            &&& result matches Ok(m) ==> m.outputs() == outputs && m.inputs() == inputs
                && m.values() == coefficients@
            &&& result matches Err(error) ==> if outputs == 0 || inputs == 0 {
                error == MatrixError::ZeroChannels
            } else if outputs * inputs > usize::MAX {
                error == MatrixError::FrameCountOverflow
            } else if coefficients@.len() != outputs * inputs {
                error == MatrixError::WrongCoefficientCount {
                    expected: (outputs * inputs) as usize,
                    actual: coefficients@.len() as usize,
                }
            } else {
                error matches MatrixError::NonFiniteCoefficient { index } && {
                    &&& index < coefficients@.len()
                    &&& !coefficients@[index as int].finite()
                    &&& forall|k: int|
                        0 <= k < index ==> (#[trigger] coefficients@[k]).finite()
                }
            }
        }),
{
    if let Err(MatrixError::NonFiniteCoefficient { index }) = result {
        if outputs > 0 && inputs > 0 && coefficients@.len() == outputs * inputs {
            assert forall|k: int| 0 <= k < index implies (#[trigger] coefficients@[k]).finite() by {
                assert(coefficients@.take(index as int)[k].finite());
            }
        }
    }
}

/// The identity has a one where an output meets the input of the same number, and zeros elsewhere.
pub proof fn identities_pair_equal_channels(
    channels: usize,
    result: Result<ChannelMatrix, MatrixError>,
    output: int,
    input: int,
)
    requires
        channels * channels <= usize::MAX,
        call_ensures(ChannelMatrix::identity, (channels,), result),
        0 <= output < channels,
        0 <= input < channels,
    ensures
        result matches Ok(m) && {
            &&& m.outputs() == channels
            &&& m.inputs() == channels
            &&& m.values().len() == channels * channels
            &&& m.values()[output * channels + input].bits == if output == input {
                0x3f80_0000u32
            } else {
                0u32
            }
        },
{
    let n = channels as int;
    lemma_mul_inequality(output + 1, n, n);
    lemma_mul_is_distributive_add_other_way(n, output, 1);
    lemma_mul_nonnegative(output, n);
    lemma_fundamental_div_mod_converse(output * n + input, n, output, input);
}

/// Through the identity, with silence in the output and a gain that is read as one, each channel of
/// each frame comes out as it went in.
pub proof fn identities_preserve_audio<M: FloatMath>(
    channels: usize,
    m: ChannelMatrix,
    frames: usize,
    input: &[Float32],
    output: &mut [Float32],
    gain: Float32,
    frame: int,
    channel: int,
    read: spec_fn(Float32) -> int,
)
    requires
        channels * channels <= usize::MAX,
        call_ensures(ChannelMatrix::identity, (channels,), Ok::<ChannelMatrix, MatrixError>(m)),
        call_ensures(
            ChannelMatrix::mix_interleaved::<M>,
            (&m, frames, input, output, gain),
            Ok::<(), MatrixError>(()),
        ),
        0 <= frame < frames,
        0 <= channel < channels,
        arithmetic::is_exact::<M>(read),
        read(Float32 { bits: 0 }) == 0,
        read(Float32 { bits: 0x3f80_0000 }) == 1,
        read(gain) == 1,
        read(old(output)@[frame * channels + channel]) == 0,
    ensures
        read(final(output)@[frame * channels + channel]) == read(
            input@[frame * channels + channel],
        ),
{
    let n = channels as int;
    assert(channels > 0);
    assert(m.values().len() == channels * channels) by {
        identities_pair_equal_channels(channels, Ok(m), channel, channel);
    }
    assert(is_whole(m));
    mixing_multiplies_by_the_matrix::<M>(
        m,
        frames,
        input,
        output,
        gain,
        frame,
        channel,
        read,
    );
    let samples = input@.subrange(frame * m.inputs(), frame * m.inputs() + m.inputs());
    lemma_mul_inequality(frame + 1, frames as int, n);
    lemma_mul_is_distributive_add_other_way(n, frame, 1);
    lemma_mul_nonnegative(frame, n);
    assert forall|k: int| 0 <= k < n implies read(#[trigger] m.values()[channel * n + k]) == if k
        == channel {
        1int
    } else {
        0
    } by {
        identities_pair_equal_channels(channels, Ok(m), channel, k);
        assert(m.values()[channel * n + k] == Float32 {
            bits: if channel == k {
                0x3f80_0000u32
            } else {
                0u32
            },
        });
    }
    arithmetic::lemma_unit_row(read, m.values(), channel * n, samples, channel, n as nat);
    assert(samples[channel] == input@[frame * n + channel]);
    assert(read(samples[channel]) * 1 == read(samples[channel]));
    mixing_adds_the_row_of_each_output::<M>(m, frames, input, output, gain, frame, channel);
}

} // verus!
