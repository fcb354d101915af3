//! Readings under which arithmetic keeps the usual rules.
use vstd::prelude::*;
use vstd::arithmetic::mul::*;
use crate::float::{Float32, Float64, FloatMath};
use crate::matrix;

verus! {

/// Sums and products are read as the sums and products of what their operands are read as.
pub open spec fn is_exact<M: FloatMath>(read: spec_fn(Float32) -> int) -> bool {
    &&& forall|sum: Float32| #[trigger] call_ensures(M::empty_sum, (), sum) ==> read(sum) == 0
    &&& forall|left: Float32, right: Float32, sum: Float32| #[trigger]
        call_ensures(M::add, (left, right), sum) ==> read(sum) == read(left) + read(right)
    &&& forall|left: Float32, right: Float32, product: Float32| #[trigger]
        call_ensures(M::mul, (left, right), product) ==> read(product) == read(left) * read(right)
}

/// The sum of the products of `n` coefficients, from `start` on, with the first `n` samples.
pub open spec fn weighted(
    read: spec_fn(Float32) -> int,
    coefficients: Seq<Float32>,
    start: int,
    samples: Seq<Float32>,
    n: nat,
) -> int
    decreases n,
{
    if n == 0 {
        0
    } else {
        weighted(read, coefficients, start, samples, (n - 1) as nat) + read(
            coefficients[start + n - 1],
        ) * read(samples[n - 1])
    }
}

/// `sums` are the sums of the first products, starting from that of none.
pub open spec fn are_sums<M: FloatMath>(
    coefficients: Seq<Float32>,
    start: int,
    samples: Seq<Float32>,
    sums: Seq<Float32>,
) -> bool {
    &&& sums.len() > 0
    &&& call_ensures(M::empty_sum, (), sums[0])
    &&& forall|k: int|
        0 <= k < sums.len() - 1 ==> adds_product::<M>(
            #[trigger] sums[k],
            coefficients[start + k],
            samples[k],
            sums[k + 1],
        )
}

/// `sum` is `before` with the product of a coefficient and a sample added to it.
pub open spec fn adds_product<M: FloatMath>(
    before: Float32,
    coefficient: Float32,
    sample: Float32,
    sum: Float32,
) -> bool {
    exists|product: Float32|
        #[trigger] call_ensures(M::mul, (coefficient, sample), product) && call_ensures(
            M::add,
            (before, product),
            sum,
        )
}

/// `mixed` is the sum of the products of a row of coefficients, from `start` on, with the samples,
/// added up from the left and then multiplied by the gain.
pub open spec fn is_row_applied<M: FloatMath>(
    coefficients: Seq<Float32>,
    start: int,
    samples: Seq<Float32>,
    gain: Float32,
    mixed: Float32,
) -> bool {
    exists|sums: Seq<Float32>|
        {
            &&& #[trigger] are_sums::<M>(coefficients, start, samples, sums)
            &&& sums.len() == samples.len() + 1
            &&& call_ensures(M::mul, (sums.last(), gain), mixed)
        }
}

/// The sums that lead to a dot product.
pub proof fn lemma_dot_sums<M: FloatMath>(
    row: Seq<Float32>,
    coefficients: Seq<Float32>,
    start: int,
    samples: Seq<Float32>,
    n: nat,
    sum: Float32,
) -> (sums: Seq<Float32>)
    requires
        n <= row.len(),
        forall|k: int| 0 <= k < row.len() ==> #[trigger] row[k] == coefficients[start + k],
        matrix::is_dot::<M>(row, samples, n, sum),
    ensures
        are_sums::<M>(coefficients, start, samples, sums),
        sums.len() == n + 1,
        sums.last() == sum,
    decreases n,
{
    if n == 0 {
        seq![sum]
    } else {
        let (before, product) = choose|before: Float32, product: Float32|
            {
                &&& matrix::is_dot::<M>(row, samples, (n - 1) as nat, before)
                &&& call_ensures(M::mul, (row[n - 1], samples[n - 1]), product)
                &&& #[trigger] call_ensures(M::add, (before, product), sum)
            };
        let shorter = lemma_dot_sums::<M>(
            row,
            coefficients,
            start,
            samples,
            (n - 1) as nat,
            before,
        );
        let sums = shorter.push(sum);
        assert(row[n - 1] == coefficients[start + (n - 1)]);
        assert forall|k: int| 0 <= k < sums.len() - 1 implies adds_product::<M>(
            #[trigger] sums[k],
            coefficients[start + k],
            samples[k],
            sums[k + 1],
        ) by {
            if k < n - 1 {
                assert(adds_product::<M>(
                    shorter[k],
                    coefficients[start + k],
                    samples[k],
                    shorter[k + 1],
                ));
            }
        }
        sums
    }
}

/// Sums of products are read as such.
pub proof fn lemma_sums_read<M: FloatMath>(
    read: spec_fn(Float32) -> int,
    coefficients: Seq<Float32>,
    start: int,
    samples: Seq<Float32>,
    sums: Seq<Float32>,
    n: nat,
)
    requires
        is_exact::<M>(read),
        are_sums::<M>(coefficients, start, samples, sums),
        n < sums.len(),
    ensures
        read(sums[n as int]) == weighted(read, coefficients, start, samples, n),
    decreases n,
{
    if n > 0 {
        lemma_sums_read::<M>(read, coefficients, start, samples, sums, (n - 1) as nat);
        assert(adds_product::<M>(
            sums[n - 1],
            coefficients[start + (n - 1)],
            samples[n - 1],
            sums[n - 1 + 1],
        ));
    }
}

/// A row that is applied is read as the weighted sum of the samples, times the gain.
pub proof fn lemma_row_read<M: FloatMath>(
    read: spec_fn(Float32) -> int,
    coefficients: Seq<Float32>,
    start: int,
    samples: Seq<Float32>,
    gain: Float32,
    mixed: Float32,
)
    requires
        is_exact::<M>(read),
        is_row_applied::<M>(coefficients, start, samples, gain, mixed),
    ensures
        read(mixed) == weighted(read, coefficients, start, samples, samples.len()) * read(gain),
{
    let sums = choose|sums: Seq<Float32>|
        {
            &&& #[trigger] are_sums::<M>(coefficients, start, samples, sums)
            &&& sums.len() == samples.len() + 1
            &&& call_ensures(M::mul, (sums.last(), gain), mixed)
        };
    lemma_sums_read::<M>(read, coefficients, start, samples, sums, samples.len());
}

/// What a mixed sample is made of.
pub proof fn lemma_mixed<M: FloatMath>(
    row: Seq<Float32>,
    coefficients: Seq<Float32>,
    start: int,
    samples: Seq<Float32>,
    gain: Float32,
    mixed: Float32,
)
    requires
        row.len() == samples.len(),
        forall|k: int| 0 <= k < row.len() ==> #[trigger] row[k] == coefficients[start + k],
        matrix::is_mixed::<M>(row, samples, gain, mixed),
    ensures
        is_row_applied::<M>(coefficients, start, samples, gain, mixed),
{
    let sum = choose|sum: Float32|
        #[trigger] matrix::is_dot::<M>(row, samples, row.len(), sum) && call_ensures(
            M::mul,
            (sum, gain),
            mixed,
        );
    let sums = lemma_dot_sums::<M>(row, coefficients, start, samples, row.len(), sum);
    assert(are_sums::<M>(coefficients, start, samples, sums));
}

/// A row with a one at one place and zeros elsewhere picks the sample at that place.
pub proof fn lemma_unit_row(
    read: spec_fn(Float32) -> int,
    coefficients: Seq<Float32>,
    start: int,
    samples: Seq<Float32>,
    at: int,
    n: nat,
)
    requires
        forall|k: int|
            0 <= k < n ==> read(#[trigger] coefficients[start + k]) == if k == at {
                1int
            } else {
                0
            },
    ensures
        weighted(read, coefficients, start, samples, n) == if 0 <= at < n {
            read(samples[at])
        } else {
            0
        },
    decreases n,
{
    if n > 0 {
        lemma_unit_row(read, coefficients, start, samples, at, (n - 1) as nat);
        let k = n - 1;
        assert(read(coefficients[start + k]) == if k == at {
            1int
        } else {
            0
        });
        assert(1 * read(samples[k]) == read(samples[k]));
        assert(0 * read(samples[k]) == 0);
    }
}

/// Positions between frames are read in units of which `unit` make a frame: a whole frame can be
/// told, and taken off.
pub open spec fn is_positional<M: FloatMath>(place: spec_fn(Float64) -> int, unit: int) -> bool {
    &&& unit > 0
    &&& forall|phase: Float64, whole: bool| #[trigger]
        call_ensures(M::has_whole_frame, (phase,), whole) ==> whole == (place(phase) >= unit)
    &&& forall|phase: Float64, rest: Float64| #[trigger]
        call_ensures(M::without_whole_frame, (phase,), rest) ==> place(rest) == place(phase) - unit
}

/// A step is longer with a positive correction, and shorter with a negative one.
pub open spec fn steps_follow_corrections<M: FloatMath>(
    place: spec_fn(Float64) -> int,
    sign: spec_fn(Float64) -> int,
) -> bool {
    forall|phase: Float64, step: Float64, correction: Float64, moved: Float64| #[trigger]
        call_ensures(M::advance_phase, (phase, step, correction), moved) ==> {
            &&& sign(correction) >= 0 ==> place(moved) >= place(phase) + place(step)
            &&& sign(correction) <= 0 ==> place(moved) <= place(phase) + place(step)
        }
}

/// Each of the positions but the last holds a whole frame, and the next one is without it.
pub open spec fn descends<M: FloatMath>(phases: Seq<Float64>) -> bool {
    &&& phases.len() > 0
    &&& forall|k: int|
        0 <= k < phases.len() - 1 ==> {
            &&& call_ensures(M::has_whole_frame, (#[trigger] phases[k],), true)
            &&& call_ensures(M::without_whole_frame, (phases[k],), phases[k + 1])
        }
}

/// Each whole frame that is taken off makes the position one frame smaller.
pub proof fn lemma_descent<M: FloatMath>(
    place: spec_fn(Float64) -> int,
    unit: int,
    phases: Seq<Float64>,
    n: int,
)
    requires
        is_positional::<M>(place, unit),
        descends::<M>(phases),
        0 <= n < phases.len(),
    ensures
        place(phases[n]) == place(phases[0]) - n * unit,
        n > 0 ==> place(phases[n]) >= 0,
    decreases n,
{
    if n > 0 {
        lemma_descent::<M>(place, unit, phases, n - 1);
        assert(call_ensures(M::has_whole_frame, (phases[n - 1],), true));
        assert(call_ensures(M::without_whole_frame, (phases[n - 1],), phases[n - 1 + 1]));
        lemma_mul_is_distributive_sub_other_way(unit, n, 1);
    } else {
        assert(0 * unit == 0);
    }
}

} // verus!
