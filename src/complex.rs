//! Complex numbers over a scalar type, with spec counterparts of their
//! operations.
use vstd::prelude::*;
use crate::scalar::Scalar;

verus! {

/// A complex number: real part first, imaginary part second.
#[derive(Clone, Copy, Debug, PartialEq)]
pub struct Complex<T> {
    pub re: T,
    pub im: T,
}

pub open spec fn c_add<T: Scalar>(a: Complex<T>, b: Complex<T>) -> Complex<T> {
    Complex { re: a.re.plus_spec(b.re), im: a.im.plus_spec(b.im) }
}

pub open spec fn c_sub<T: Scalar>(a: Complex<T>, b: Complex<T>) -> Complex<T> {
    Complex { re: a.re.minus_spec(b.re), im: a.im.minus_spec(b.im) }
}

pub open spec fn c_mul<T: Scalar>(a: Complex<T>, b: Complex<T>) -> Complex<T> {
    Complex {
        re: a.re.times_spec(b.re).minus_spec(a.im.times_spec(b.im)),
        im: a.re.times_spec(b.im).plus_spec(a.im.times_spec(b.re)),
    }
}

pub open spec fn c_conj<T: Scalar>(a: Complex<T>) -> Complex<T> {
    Complex { re: a.re, im: a.im.negate_spec() }
}

pub open spec fn c_halve<T: Scalar>(a: Complex<T>) -> Complex<T> {
    Complex { re: a.re.halve_spec(), im: a.im.halve_spec() }
}

/// A purely real value.
pub open spec fn c_real<T: Scalar>(x: T) -> Complex<T> {
    Complex { re: x, im: T::zero_spec() }
}

impl<T: Scalar> Complex<T> {
    pub fn new(re: T, im: T) -> (r: Self)
        ensures
            r == (Complex { re, im }),
    {
        Complex { re, im }
    }

    pub fn add(self, other: Self) -> (r: Self)
        ensures
            r == c_add(self, other),
    {
        Complex { re: self.re.plus(other.re), im: self.im.plus(other.im) }
    }

    pub fn sub(self, other: Self) -> (r: Self)
        ensures
            r == c_sub(self, other),
    {
        Complex { re: self.re.minus(other.re), im: self.im.minus(other.im) }
    }

    pub fn mul(self, other: Self) -> (r: Self)
        ensures
            r == c_mul(self, other),
    {
        let re = self.re.times(other.re).minus(self.im.times(other.im));
        let im = self.re.times(other.im).plus(self.im.times(other.re));
        Complex { re, im }
    }

    pub fn conj(self) -> (r: Self)
        ensures
            r == c_conj(self),
    {
        Complex { re: self.re, im: self.im.negate() }
    }

    /// Scaling by one half.
    pub fn halve(self) -> (r: Self)
        ensures
            r == c_halve(self),
    {
        Complex { re: self.re.halve(), im: self.im.halve() }
    }
}

/// Conjugation undoes itself.
pub proof fn lemma_conj_involutive<T: Scalar>(a: Complex<T>)
    ensures
        c_conj(c_conj(a)) == a,
{
    T::lemma_negate_involutive(a.im);
}

} // verus!
