//! The real transform: a real buffer read as complex pairs, a complex
//! transform of half the size, and the recombination, in the order that the
//! direction asks for.
use vstd::prelude::*;
use crate::complex::Complex;
use crate::compose::{compose, composed_all, factors_fit};
use crate::scalar::Scalar;
use crate::unpack::{is_power_of_two, lemma_pow2_even};

verus! {

/// The direction of a transform.
#[derive(Clone, Copy, Debug, PartialEq, Eq)]
pub enum Operation {
    Forward,
    Backward,
    Inverse,
}

/// An execution plan: the length of the real sequence, the direction, and the
/// twiddle factors that the recombination step reads.
pub struct Plan<T> {
    pub size: usize,
    pub operation: Operation,
    pub factors: Vec<Complex<T>>,
}

/// Why a real transform was refused.
#[derive(Clone, Copy, Debug, PartialEq, Eq)]
pub enum TransformError {
    /// The buffer's length differs from the plan's size.
    SizeMismatch,
    /// The plan's size is not a power of two of at least 2, or its twiddle
    /// table is too short for that size.
    MalformedPlan,
    /// The complex transform changed the length of the half buffer.
    EngineResized,
}

/// A complex transform of a half buffer in place, according to a plan.
pub trait ComplexTransform<T: Scalar> {
    fn transform(&self, data: &mut Vec<Complex<T>>, plan: &Plan<T>);
}

/// Whether a plan can drive the real transform.
pub open spec fn plan_fits(size: nat, factors_len: nat) -> bool {
    &&& size >= 2
    &&& is_power_of_two(size)
    &&& factors_fit(size / 2, factors_len)
}

/// A real sequence read as consecutive (real, imaginary) pairs.
pub open spec fn pairs_of<T: Scalar>(b: Seq<T>) -> Seq<Complex<T>> {
    Seq::new(b.len() / 2, |k: int| Complex { re: b[2 * k], im: b[2 * k + 1] })
}

/// A complex sequence laid out as interleaved real and imaginary parts.
pub open spec fn reals_of<T: Scalar>(h: Seq<Complex<T>>) -> Seq<T> {
    Seq::new(
        2 * h.len(),
        |k: int|
            if k % 2 == 0 {
                h[k / 2].re
            } else {
                h[k / 2].im
            },
    )
}

/// Tests whether `n` is a power of two.
pub fn power_of_two(n: usize) -> (r: bool)
    ensures
        r == is_power_of_two(n as nat),
{
    let mut k = n;
    while k > 1 && k % 2 == 0
        invariant
            is_power_of_two(n as nat) == is_power_of_two(k as nat),
        decreases k,
    {
        k = k / 2;
    }
    k == 1
}

/// Reads a real buffer of even length as complex pairs, real part first.
pub fn to_complex<T: Scalar>(buffer: &Vec<T>) -> (r: Vec<Complex<T>>)
    requires
        buffer@.len() % 2 == 0,
    ensures
        r@ == pairs_of(buffer@),
{
    let len = buffer.len();
    let h = len / 2;
    let mut r: Vec<Complex<T>> = Vec::with_capacity(h);
    let mut k: usize = 0;
    while k < h
        invariant
            h == buffer@.len() / 2,
            buffer@.len() == 2 * h,
            len == 2 * h,
            k <= h,
            r@ == pairs_of(buffer@).take(k as int),
        decreases h - k,
    {
        r.push(Complex::new(buffer[2 * k], buffer[2 * k + 1]));
        k = k + 1;
        assert(r@ =~= pairs_of(buffer@).take(k as int));
    }
    assert(r@ =~= pairs_of(buffer@));
    r
}

/// Lays complex values out as interleaved real and imaginary parts.
pub fn to_real<T: Scalar>(half: &Vec<Complex<T>>) -> (r: Vec<T>)
    requires
        half@.len() <= usize::MAX / 2,
    ensures
        r@ == reals_of(half@),
{
    let mut r: Vec<T> = Vec::with_capacity(2 * half.len());
    let mut k: usize = 0;
    while k < half.len()
        invariant
            half@.len() <= usize::MAX / 2,
            k <= half@.len(),
            r@ == reals_of(half@).take(2 * k as int),
        decreases half@.len() - k,
    {
        let c = half[k];
        r.push(c.re);
        r.push(c.im);
        k = k + 1;
        assert(r@ =~= reals_of(half@).take(2 * k as int));
    }
    assert(r@ =~= reals_of(half@));
    r
}

/// Turns the complex transform of a packed real sequence into its packed real
/// spectrum; a half buffer whose length does not fit the plan is refused.
pub fn finish_forward<T: Scalar>(half: Vec<Complex<T>>, plan: &Plan<T>) -> (r: Result<
    Vec<T>,
    TransformError,
>)
    requires
        plan_fits(plan.size as nat, plan.factors@.len()),
    ensures
        (r is Err) <==> half@.len() != plan.size / 2,
        r is Err ==> r == Err::<Vec<T>, TransformError>(TransformError::EngineResized),
        r is Ok ==> r->Ok_0@ == reals_of(composed_all(half@, plan.factors@, false)),
{
    if half.len() != plan.size / 2 {
        return Err(TransformError::EngineResized);
    }
    let mut half = half;
    let ghost d = half@;
    let n = half.len();
    proof {
        lemma_pow2_even(plan.size as nat);
        reveal_with_fuel(is_power_of_two, 2);
    }
    compose(&mut half, n, plan.factors.as_slice(), false);
    assert(half@ =~= composed_all(d, plan.factors@, false));
    Ok(to_real(&half))
}

/// Lays the inverse complex transform's result out as the real sequence of
/// length `size`; a half buffer of another length than `size / 2` is refused.
pub fn finish_inverse<T: Scalar>(half: &Vec<Complex<T>>, size: usize) -> (r: Result<
    Vec<T>,
    TransformError,
>)
    ensures
        (r is Err) <==> half@.len() != size / 2,
        r is Err ==> r == Err::<Vec<T>, TransformError>(TransformError::EngineResized),
        r is Ok ==> r->Ok_0@ == reals_of(half@),
{
    if half.len() != size / 2 {
        return Err(TransformError::EngineResized);
    }
    Ok(to_real(half))
}

/// Turns a packed real spectrum into the half buffer that the inverse complex
/// transform takes.
pub fn prepare_inverse<T: Scalar>(buffer: &Vec<T>, plan: &Plan<T>) -> (r: Vec<Complex<T>>)
    requires
        plan_fits(plan.size as nat, plan.factors@.len()),
        buffer@.len() == plan.size,
    ensures
        r@ == composed_all(pairs_of(buffer@), plan.factors@, true),
{
    proof {
        lemma_pow2_even(plan.size as nat);
        reveal_with_fuel(is_power_of_two, 2);
    }
    let mut half = to_complex(buffer);
    let ghost d = half@;
    let n = half.len();
    compose(&mut half, n, plan.factors.as_slice(), true);
    assert(half@ =~= composed_all(d, plan.factors@, true));
    half
}

/// Performs the real transform that `plan` describes on `buffer`, in place.
///
/// Forward: the data are replaced by the positive-frequency half of their
/// Fourier transform, the real DC and Nyquist values at positions 0 and 1.
/// Backward or inverse: the data are taken to be packed that way.
pub fn transform<T: Scalar, E: ComplexTransform<T>>(
    buffer: &mut Vec<T>,
    plan: &Plan<T>,
    engine: &E,
) -> (r: Result<(), TransformError>)
    ensures
        (r == Err::<(), TransformError>(TransformError::SizeMismatch)) <==> old(buffer)@.len()
            != plan.size,
        (r == Err::<(), TransformError>(TransformError::MalformedPlan)) <==> (old(buffer)@.len()
            == plan.size && !plan_fits(plan.size as nat, plan.factors@.len())),
        r is Err ==> final(buffer)@ == old(buffer)@,
        r is Ok ==> final(buffer)@.len() == old(buffer)@.len(),
        r is Ok && plan.operation == Operation::Forward ==> exists|h: Seq<Complex<T>>|
            h.len() == plan.size / 2 && final(buffer)@ == reals_of(
                #[trigger] composed_all(h, plan.factors@, false),
            ),
{
    let n = buffer.len();
    if n != plan.size {
        return Err(TransformError::SizeMismatch);
    }
    if n < 2 || !power_of_two(n) || (n / 2 >= 4 && plan.factors.len() < n / 2 - 1) {
        return Err(TransformError::MalformedPlan);
    }
    proof {
        lemma_pow2_even(n as nat);
    }
    match plan.operation {
        Operation::Forward => {
            let mut half = to_complex(buffer);
            engine.transform(&mut half, plan);
            let ghost h = half@;
            match finish_forward(half, plan) {
                Ok(out) => {
                    assert(out@ == reals_of(composed_all(h, plan.factors@, false)));
                    *buffer = out;
                },
                Err(e) => {
                    return Err(e);
                },
            }
        },
        Operation::Backward | Operation::Inverse => {
            let mut half = prepare_inverse(buffer, plan);
            engine.transform(&mut half, plan);
            match finish_inverse(&half, n) {
                Ok(out) => {
                    *buffer = out;
                },
                Err(e) => {
                    return Err(e);
                },
            }
        },
    }
    Ok(())
}

} // verus!

verus! {

/// After the forward recombination of a half buffer of at least one entry,
/// the first two packed values are the sum and the difference of the real and
/// imaginary parts of the half buffer's first entry (the complex transform's
/// DC bin): the DC and Nyquist values of the real sequence.
pub proof fn lemma_forward_dc_nyquist<T: Scalar>(h: Seq<Complex<T>>, f: Seq<Complex<T>>)
    requires
        h.len() >= 1,
    ensures
        reals_of(composed_all(h, f, false))[0] == h[0].re.plus_spec(h[0].im),
        reals_of(composed_all(h, f, false))[1] == h[0].re.minus_spec(h[0].im),
{
}

} // verus!
