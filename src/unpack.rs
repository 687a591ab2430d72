//! Expansion of a packed real spectrum into the full complex spectrum.
use vstd::prelude::*;
use crate::complex::{Complex, c_conj, c_real};
use crate::scalar::Scalar;

verus! {

pub open spec fn is_power_of_two(n: nat) -> bool
    decreases n,
{
    if n <= 1 {
        n == 1
    } else {
        n % 2 == 0 && is_power_of_two(n / 2)
    }
}

/// A power of two of at least 2 is even.
pub proof fn lemma_pow2_even(n: nat)
    requires
        is_power_of_two(n),
        n >= 2,
    ensures
        n % 2 == 0,
{
    reveal_with_fuel(is_power_of_two, 2);
}

/// Bin `i` of a packed spectrum stored as interleaved real and imaginary parts:
/// bin 0 holds the DC value and bin `n / 2` the Nyquist value, both real.
pub open spec fn packed_bin<T: Scalar>(p: Seq<T>, i: int) -> Complex<T> {
    if i == 0 {
        c_real(p[0])
    } else if i == p.len() / 2 {
        c_real(p[1])
    } else {
        Complex { re: p[2 * i], im: p[2 * i + 1] }
    }
}

/// Bin `i` of the full spectrum that the packed spectrum `p` stands for; the
/// upper half mirrors the lower half by conjugation.
pub open spec fn full_bin<T: Scalar>(p: Seq<T>, i: int) -> Complex<T> {
    if i <= p.len() / 2 {
        packed_bin(p, i)
    } else {
        c_conj(packed_bin(p, p.len() - i))
    }
}

/// Expands a packed real spectrum into the full complex spectrum of the same
/// length, reconstructing the upper half by conjugate symmetry.
pub fn unpack<T: Scalar>(data: &[T]) -> (r: Vec<Complex<T>>)
    requires
        is_power_of_two(data@.len()),
        data@.len() >= 2,
    ensures
        r@.len() == data@.len(),
        forall|i: int| 0 <= i < data@.len() ==> r@[i] == full_bin(data@, i),
{
    let n = data.len();
    let h = n / 2;
    assert(n == 2 * h);
    let mut cdata: Vec<Complex<T>> = Vec::with_capacity(n);
    cdata.push(Complex::new(data[0], T::zero()));
    let mut i: usize = 1;
    while i < h
        invariant
            n == data@.len(),
            n == 2 * h,
            1 <= i <= h,
            cdata@.len() == i,
            forall|k: int| 0 <= k < i ==> cdata@[k] == full_bin(data@, k),
        decreases h - i,
    {
        cdata.push(Complex::new(data[2 * i], data[2 * i + 1]));
        i = i + 1;
    }
    cdata.push(Complex::new(data[1], T::zero()));
    let mut i: usize = h + 1;
    while i < n
        invariant
            n == data@.len(),
            n == 2 * h,
            h + 1 <= i <= n,
            cdata@.len() == i,
            forall|k: int| 0 <= k < i ==> cdata@[k] == full_bin(data@, k),
        decreases n - i,
    {
        let c = cdata[n - i].conj();
        cdata.push(c);
        i = i + 1;
    }
    cdata
}

/// The unpacked spectrum is Hermitian: bin `n - i` is the conjugate of bin `i`,
/// and the DC and Nyquist bins have a zero imaginary part. The Nyquist bin is
/// its own mirror; it equals its conjugate where negating zero gives zero (on
/// floating-point numbers the conjugate's imaginary part is a negative zero).
pub proof fn lemma_unpack_hermitian<T: Scalar>(p: Seq<T>)
    requires
        is_power_of_two(p.len()),
        p.len() >= 2,
    ensures
        forall|i: int|
            0 < i < p.len() && i != p.len() / 2 ==> full_bin(p, p.len() - i) == c_conj(
                #[trigger] full_bin(p, i),
            ),
        full_bin(p, 0).im == T::zero_spec(),
        full_bin(p, p.len() as int / 2).im == T::zero_spec(),
        T::zero_spec().negate_spec() == T::zero_spec() ==> full_bin(p, p.len() as int / 2)
            == c_conj(full_bin(p, p.len() as int / 2)),
{
    let n = p.len() as int;
    assert forall|i: int| 0 < i < n && i != n / 2 implies full_bin(p, n - i) == c_conj(
        #[trigger] full_bin(p, i),
    ) by {
        if i > n / 2 {
            crate::complex::lemma_conj_involutive(packed_bin(p, n - i));
        }
    }
}

} // verus!
