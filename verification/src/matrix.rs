//! Channel matrices.
use vstd::prelude::*;
use vstd::arithmetic::div_mod::*;
use vstd::arithmetic::mul::*;
use vstd::slice::slice_subrange;
use vstd::string::StringExecFns;
use crate::float::{Float32, FloatMath};
use crate::text;
use crate::text::{digits_text, joined};

verus! {

/// A row-major output-by-input channel matrix.
#[derive(Debug, PartialEq)]
pub struct ChannelMatrix {
    output_channels: usize,
    input_channels: usize,
    coefficients: Vec<Float32>,
}

/// Why a matrix was refused, or could not be applied.
#[derive(Debug, Eq, PartialEq)]
pub enum MatrixError {
    ZeroChannels,
    WrongCoefficientCount { expected: usize, actual: usize },
    NonFiniteCoefficient { index: usize },
    BufferLengthMismatch,
    FrameCountOverflow,
}

impl Clone for MatrixError {
    fn clone(&self) -> (copy: Self)
        ensures
            copy == *self,
    {
        match self {
            MatrixError::ZeroChannels => MatrixError::ZeroChannels,
            MatrixError::WrongCoefficientCount { expected, actual } => {
                MatrixError::WrongCoefficientCount { expected: *expected, actual: *actual }
            },
            MatrixError::NonFiniteCoefficient { index } => MatrixError::NonFiniteCoefficient {
                index: *index,
            },
            MatrixError::BufferLengthMismatch => MatrixError::BufferLengthMismatch,
            MatrixError::FrameCountOverflow => MatrixError::FrameCountOverflow,
        }
    }
}

impl MatrixError {
    /// The message that a person reads.
    pub open spec fn message(self) -> Seq<char> {
        match self {
            MatrixError::ZeroChannels => "channel counts must be greater than zero"@,
            MatrixError::WrongCoefficientCount { expected, actual } => "expected "@ + text::digits(
                expected as nat,
            ) + " coefficients, received "@ + text::digits(actual as nat),
            MatrixError::NonFiniteCoefficient { index } => "coefficient "@ + text::digits(
                index as nat,
            ) + " is not finite"@,
            MatrixError::BufferLengthMismatch => "audio buffer length does not match the matrix"@,
            MatrixError::FrameCountOverflow => "frame count overflows the audio buffer length"@,
        }
    }

    /// The message that a person reads.
    pub fn text(&self) -> (message: String)
        ensures
            message@ == self.message(),
    {
        match self {
            MatrixError::ZeroChannels => "channel counts must be greater than zero".to_owned(),
            MatrixError::WrongCoefficientCount { expected, actual } => {
                let mut message = joined("expected ", digits_text(*expected as u64).as_str());
                message.append(" coefficients, received ");
                message.append(digits_text(*actual as u64).as_str());
                message
            },
            MatrixError::NonFiniteCoefficient { index } => {
                let mut message = joined("coefficient ", digits_text(*index as u64).as_str());
                message.append(" is not finite");
                message
            },
            MatrixError::BufferLengthMismatch => {
                "audio buffer length does not match the matrix".to_owned()
            },
            MatrixError::FrameCountOverflow => {
                "frame count overflows the audio buffer length".to_owned()
            },
        }
    }
}

/// `sum` is the sum of the first `n` products of the row's coefficients with the frame's samples,
/// added up from the left.
pub open spec fn is_dot<M: FloatMath>(
    row: Seq<Float32>,
    frame: Seq<Float32>,
    n: nat,
    sum: Float32,
) -> bool
    decreases n,
{
    if n == 0 {
        call_ensures(M::empty_sum, (), sum)
    } else {
        exists|before: Float32, product: Float32|
            {
                &&& is_dot::<M>(row, frame, (n - 1) as nat, before)
                &&& call_ensures(M::mul, (row[n - 1], frame[n - 1]), product)
                &&& #[trigger] call_ensures(M::add, (before, product), sum)
            }
    }
}

/// `mixed` is the row applied to the frame, times the gain.
pub open spec fn is_mixed<M: FloatMath>(
    row: Seq<Float32>,
    frame: Seq<Float32>,
    gain: Float32,
    mixed: Float32,
) -> bool {
    exists|sum: Float32|
        #[trigger] is_dot::<M>(row, frame, row.len(), sum) && call_ensures(
            M::mul,
            (sum, gain),
            mixed,
        )
}

/// `after` is `before` with the row applied to the frame, times the gain, added to it.
pub open spec fn is_mixed_into<M: FloatMath>(
    before: Float32,
    row: Seq<Float32>,
    frame: Seq<Float32>,
    gain: Float32,
    after: Float32,
) -> bool {
    exists|mixed: Float32|
        #[trigger] is_mixed::<M>(row, frame, gain, mixed) && call_ensures(
            M::add,
            (before, mixed),
            after,
        )
}

/// The row applied to the frame, times the gain.
pub(crate) fn mix_frame<M: FloatMath>(row: &[Float32], frame: &[Float32], gain: Float32) -> (mixed:
    Float32)
    requires
        row@.len() == frame@.len(),
    ensures
        is_mixed::<M>(row@, frame@, gain, mixed),
{
    let mut sum = M::empty_sum();
    let mut k: usize = 0;
    while k < row.len()
        invariant
            k <= row@.len(),
            row@.len() == frame@.len(),
            is_dot::<M>(row@, frame@, k as nat, sum),
        decreases row.len() - k,
    {
        let product = M::mul(row[k], frame[k]);
        let next = M::add(sum, product);
        proof {
            let n: nat = (k + 1) as nat;
            assert(is_dot::<M>(row@, frame@, (n - 1) as nat, sum));
            assert(call_ensures(M::mul, (row@[n - 1], frame@[n - 1]), product));
            assert(call_ensures(M::add, (sum, product), next));
            assert(is_dot::<M>(row@, frame@, n, next));
        }
        sum = next;
        k = k + 1;
    }
    M::mul(sum, gain)
}

impl ChannelMatrix {
    /// Both channel counts are positive, there is a coefficient for each pair of an output and an
    /// input, and all are finite.
    #[verifier::type_invariant]
    pub closed spec fn wf(self) -> bool {
        &&& self.output_channels > 0
        &&& self.input_channels > 0
        &&& self.coefficients@.len() == self.output_channels * self.input_channels
        &&& forall|i: int|
            0 <= i < self.coefficients@.len() ==> (#[trigger] self.coefficients@[i]).finite()
    }

    /// The number of rows.
    pub closed spec fn outputs(self) -> usize {
        self.output_channels
    }

    /// The number of columns.
    pub closed spec fn inputs(self) -> usize {
        self.input_channels
    }

    /// The coefficients, row by row.
    pub closed spec fn values(self) -> Seq<Float32> {
        self.coefficients@
    }

    /// The coefficients of one output.
    pub open spec fn row(self, output: int) -> Seq<Float32> {
        self.values().subrange(output * self.inputs(), output * self.inputs() + self.inputs())
    }

    /// Makes a matrix of finite coefficients, one for each pair of an output and an input.
    pub fn new(
        output_channels: usize,
        input_channels: usize,
        coefficients: Vec<Float32>,
    ) -> (result: Result<Self, MatrixError>)
        ensures
            match result {
                Ok(matrix) => {
                    &&& valid_shape(output_channels, input_channels, coefficients@)
                    &&& matrix.wf()
                    &&& matrix.outputs() == output_channels
                    &&& matrix.inputs() == input_channels
                    &&& matrix.values() == coefficients@
                },
                Err(error) => shape_error(output_channels, input_channels, coefficients@, error),
            },
    {
        if output_channels == 0 || input_channels == 0 {
            return Err(MatrixError::ZeroChannels);
        }
        let expected = match output_channels.checked_mul(input_channels) {
            Some(expected) => expected,
            None => {
                return Err(MatrixError::FrameCountOverflow);
            },
        };
        if coefficients.len() != expected {
            return Err(
                MatrixError::WrongCoefficientCount { expected, actual: coefficients.len() },
            );
        }
        let mut index: usize = 0;
        while index < coefficients.len()
            invariant
                output_channels > 0,
                input_channels > 0,
                coefficients@.len() == output_channels * input_channels,
                index <= coefficients@.len(),
                all_finite(coefficients@.take(index as int)),
            decreases coefficients.len() - index,
        {
            if !coefficients[index].is_finite() {
                return Err(MatrixError::NonFiniteCoefficient { index });
            }
            assert(coefficients@.take(index + 1) =~= coefficients@.take(index as int).push(
                coefficients@[index as int],
            ));
            index = index + 1;
        }
        assert(coefficients@.take(index as int) =~= coefficients@);
        Ok(ChannelMatrix { output_channels, input_channels, coefficients })
    }

    /// The matrix that passes each channel through unchanged.
    pub fn identity(channels: usize) -> (result: Result<Self, MatrixError>)
        requires
            channels * channels <= usize::MAX,
        ensures
            match result {
                Ok(matrix) => {
                    &&& channels > 0
                    &&& matrix.wf()
                    &&& matrix.outputs() == channels
                    &&& matrix.inputs() == channels
                    &&& matrix.values() == identity_values(channels as nat)
                },
                Err(error) => channels == 0 && error == MatrixError::ZeroChannels,
            },
    {
        if channels == 0 {
            return Err(MatrixError::ZeroChannels);
        }
        let count: usize = channels * channels;
        let mut coefficients: Vec<Float32> = Vec::new();
        while coefficients.len() < count
            invariant
                channels > 0,
                count == channels * channels,
                coefficients@.len() <= count,
                forall|i: int|
                    0 <= i < coefficients@.len() ==> #[trigger] coefficients@[i]
                        == identity_values(channels as nat)[i],
            decreases count - coefficients.len(),
        {
            let i: usize = coefficients.len();
            if i / channels == i % channels {
                coefficients.push(Float32::one());
            } else {
                coefficients.push(Float32::zero());
            }
        }
        assert(coefficients@ =~= identity_values(channels as nat));
        assert(valid_shape(channels, channels, coefficients@)) by {
            assert forall|i: int| 0 <= i < coefficients@.len() implies (
            #[trigger] coefficients@[i]).finite() by {
                assert(coefficients@[i] == identity_values(channels as nat)[i]);
            }
        }
        Self::new(channels, channels, coefficients)
    }

    /// The number of rows.
    pub fn output_channels(&self) -> (channels: usize)
        ensures
            channels == self.outputs(),
            channels > 0,
    {
        proof {
            use_type_invariant(self);
        }
        self.output_channels
    }

    /// The number of columns.
    pub fn input_channels(&self) -> (channels: usize)
        ensures
            channels == self.inputs(),
            channels > 0,
    {
        proof {
            use_type_invariant(self);
        }
        self.input_channels
    }

    /// The coefficients, row by row.
    pub fn coefficients(&self) -> (values: &[Float32])
        ensures
            values@ == self.values(),
            values@.len() == self.outputs() * self.inputs(),
            all_finite(values@),
    {
        proof {
            use_type_invariant(self);
        }
        self.coefficients.as_slice()
    }

    /// Mixes interleaved `input` into interleaved `output`.
    ///
    /// `gain` is applied after the matrix. Samples that `output` holds are kept and added to, so
    /// that several routes can feed one sink.
    pub fn mix_interleaved<M: FloatMath>(
        &self,
        frames: usize,
        input: &[Float32],
        output: &mut [Float32],
        gain: Float32,
    ) -> (result: Result<(), MatrixError>)
        ensures
            final(output)@.len() == old(output)@.len(),
            match result {
                Ok(()) => {
                    &&& input@.len() == frames * self.inputs()
                    &&& old(output)@.len() == frames * self.outputs()
                    &&& gain.finite()
                    &&& forall|i: int|
                        0 <= i < final(output)@.len() ==> is_mixed_into::<M>(
                            old(output)@[i],
                            self.row(i % self.outputs() as int),
                            input_frame(input@, self.inputs() as int, i / self.outputs() as int),
                            gain,
                            #[trigger] final(output)@[i],
                        )
                },
                Err(error) => {
                    &&& final(output)@ == old(output)@
                    &&& if frames * self.inputs() > usize::MAX || frames * self.outputs()
                        > usize::MAX {
                        error == MatrixError::FrameCountOverflow
                    } else {
                        &&& error == MatrixError::BufferLengthMismatch
                        &&& input@.len() != frames * self.inputs() || old(output)@.len() != frames
                            * self.outputs() || !gain.finite()
                    }
                },
            },
    {
        proof {
            use_type_invariant(self);
        }
        let expected_input = match frames.checked_mul(self.input_channels) {
            Some(expected) => expected,
            None => {
                return Err(MatrixError::FrameCountOverflow);
            },
        };
        let expected_output = match frames.checked_mul(self.output_channels) {
            Some(expected) => expected,
            None => {
                return Err(MatrixError::FrameCountOverflow);
            },
        };
        if input.len() != expected_input || output.len() != expected_output || !gain.is_finite() {
            return Err(MatrixError::BufferLengthMismatch);
        }
        let inputs = self.input_channels;
        let outputs = self.output_channels;
        let count = self.coefficients.len();
        let mut i: usize = 0;
        while i < expected_output
            invariant
                self.wf(),
                inputs == self.input_channels,
                outputs == self.output_channels,
                outputs > 0,
                inputs > 0,
                self.coefficients@.len() == count,
                count == outputs * inputs,
                expected_output == frames * outputs,
                expected_input == frames * inputs,
                input@.len() == expected_input,
                output@.len() == expected_output,
                old(output)@.len() == expected_output,
                i <= expected_output,
                forall|k: int|
                    0 <= k < i ==> is_mixed_into::<M>(
                        old(output)@[k],
                        self.row(k % outputs as int),
                        input_frame(input@, inputs as int, k / outputs as int),
                        gain,
                        #[trigger] output@[k],
                    ),
                forall|k: int| i <= k < output@.len() ==> output@[k] == old(output)@[k],
            decreases expected_output - i,
        {
            let frame: usize = i / outputs;
            let channel: usize = i % outputs;
            proof {
                lemma_offset(frame as int, frames as int, inputs as int, i as int, outputs as int);
                lemma_row_offset(channel as int, outputs as int, inputs as int);
            }
            let row = slice_subrange(
                self.coefficients.as_slice(),
                channel * inputs,
                channel * inputs + inputs,
            );
            let samples = slice_subrange(input, frame * inputs, frame * inputs + inputs);
            let mixed = mix_frame::<M>(row, samples, gain);
            let after = M::add(output[i], mixed);
            assert(is_mixed_into::<M>(
                old(output)@[i as int],
                self.row(i as int % outputs as int),
                input_frame(input@, inputs as int, i as int / outputs as int),
                gain,
                after,
            ));
            output[i] = after;
            i = i + 1;
        }
        Ok(())
    }
}

impl Clone for ChannelMatrix {
    fn clone(&self) -> (copy: Self)
        ensures
            copy.wf(),
            copy.outputs() == self.outputs(),
            copy.inputs() == self.inputs(),
            copy.values() == self.values(),
    {
        proof {
            use_type_invariant(self);
        }
        let coefficients = self.coefficients.clone();
        assert(coefficients@ =~= self.coefficients@);
        ChannelMatrix {
            output_channels: self.output_channels,
            input_channels: self.input_channels,
            coefficients,
        }
    }
}

/// Every coefficient is finite.
pub open spec fn all_finite(coefficients: Seq<Float32>) -> bool {
    forall|i: int| 0 <= i < coefficients.len() ==> (#[trigger] coefficients[i]).finite()
}

/// The channel counts and coefficients make a matrix.
pub open spec fn valid_shape(outputs: usize, inputs: usize, coefficients: Seq<Float32>) -> bool {
    &&& outputs > 0
    &&& inputs > 0
    &&& coefficients.len() == outputs * inputs
    &&& all_finite(coefficients)
}

/// `error` is the first thing wrong with the channel counts and coefficients.
pub open spec fn shape_error(
    outputs: usize,
    inputs: usize,
    coefficients: Seq<Float32>,
    error: MatrixError,
) -> bool {
    if outputs == 0 || inputs == 0 {
        error == MatrixError::ZeroChannels
    } else if outputs * inputs > usize::MAX {
        error == MatrixError::FrameCountOverflow
    } else if coefficients.len() != outputs * inputs {
        error == MatrixError::WrongCoefficientCount {
            expected: (outputs * inputs) as usize,
            actual: coefficients.len() as usize,
        }
    } else {
        error matches MatrixError::NonFiniteCoefficient { index } && {
            &&& index < coefficients.len()
            &&& !coefficients[index as int].finite()
            &&& all_finite(coefficients.take(index as int))
        }
    }
}

/// One on the diagonal, zero elsewhere.
pub open spec fn identity_values(channels: nat) -> Seq<Float32> {
    Seq::new(
        channels * channels,
        |i: int|
            if i / channels as int == i % channels as int {
                Float32::one_value()
            } else {
                Float32::zero_value()
            },
    )
}

/// The samples of one frame of interleaved audio.
pub open spec fn input_frame(samples: Seq<Float32>, channels: int, frame: int) -> Seq<Float32> {
    samples.subrange(frame * channels, frame * channels + channels)
}

/// A frame of the output has a frame of the input, and its samples fit in.
proof fn lemma_offset(frame: int, frames: int, inputs: int, i: int, outputs: int)
    requires
        0 <= i < frames * outputs,
        outputs > 0,
        inputs > 0,
        frame == i / outputs,
    ensures
        0 <= frame < frames,
        0 <= frame * inputs,
        frame * inputs + inputs <= frames * inputs,
{
    lemma_div_pos_is_pos(i, outputs);
    lemma_mul_is_commutative(frames, outputs);
    lemma_multiply_divide_lt(i, outputs, frames);
    lemma_mul_nonnegative(frame, inputs);
    lemma_mul_inequality(frame + 1, frames, inputs);
    lemma_mul_is_distributive_add_other_way(inputs, frame, 1);
}

/// A row lies within the coefficients.
proof fn lemma_row_offset(row: int, outputs: int, inputs: int)
    requires
        0 <= row < outputs,
        inputs > 0,
    ensures
        0 <= row * inputs,
        row * inputs + inputs <= outputs * inputs,
{
    lemma_mul_nonnegative(row, inputs);
    lemma_mul_inequality(row + 1, outputs, inputs);
    lemma_mul_is_distributive_add_other_way(inputs, row, 1);
}

} // verus!
