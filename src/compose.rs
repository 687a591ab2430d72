//! The butterfly recombination between the complex transform of packed real
//! data and the packed real spectrum.
use vstd::prelude::*;
use crate::complex::{Complex, c_add, c_conj, c_halve, c_mul, c_sub};
use crate::scalar::Scalar;
use crate::unpack::is_power_of_two;

verus! {

/// Whether a twiddle table of length `m` covers every butterfly of a half
/// buffer of length `n`: the butterfly at `j = n - i` reads `factors[m - j]`.
pub open spec fn factors_fit(n: nat, m: nat) -> bool {
    n < 4 || m >= n - 1
}

/// Multiplication by the imaginary unit, negated in the forward direction.
pub open spec fn rotation<T: Scalar>(inverse: bool) -> Complex<T> {
    Complex {
        re: T::zero_spec(),
        im: if inverse {
            T::one_spec()
        } else {
            T::one_spec().negate_spec()
        },
    }
}

/// The DC entry after separating the DC and Nyquist values held in `d`.
pub open spec fn dc_nyquist<T: Scalar>(d: Complex<T>, inverse: bool) -> Complex<T> {
    let c = Complex { re: d.re.plus_spec(d.im), im: d.re.minus_spec(d.im) };
    if inverse {
        c_halve(c)
    } else {
        c
    }
}

/// The rotated twiddled difference of the butterfly on `x` (low bin) and `y`
/// (its mirror) with twiddle `w`.
pub open spec fn butterfly_product<T: Scalar>(
    x: Complex<T>,
    y: Complex<T>,
    w: Complex<T>,
    inverse: bool,
) -> Complex<T> {
    c_mul(c_mul(rotation(inverse), w), c_sub(x, c_conj(y)))
}

/// The new low bin of a butterfly.
pub open spec fn butterfly_low<T: Scalar>(
    x: Complex<T>,
    y: Complex<T>,
    w: Complex<T>,
    inverse: bool,
) -> Complex<T> {
    c_halve(c_add(c_add(x, c_conj(y)), butterfly_product(x, y, w, inverse)))
}

/// The new mirror bin of a butterfly.
pub open spec fn butterfly_high<T: Scalar>(
    x: Complex<T>,
    y: Complex<T>,
    w: Complex<T>,
    inverse: bool,
) -> Complex<T> {
    c_conj(c_halve(c_sub(c_add(x, c_conj(y)), butterfly_product(x, y, w, inverse))))
}

/// Entry `k` after recombining the half buffer `d` with the twiddles `f`.
pub open spec fn composed<T: Scalar>(
    d: Seq<Complex<T>>,
    f: Seq<Complex<T>>,
    inverse: bool,
    k: int,
) -> Complex<T> {
    let n = d.len() as int;
    let m = f.len() as int;
    if k == 0 {
        dc_nyquist(d[0], inverse)
    } else if k == n / 2 {
        c_conj(d[k])
    } else if k < n / 2 {
        butterfly_low(d[k], d[n - k], f[m - (n - k)], inverse)
    } else {
        butterfly_high(d[n - k], d[k], f[m - k], inverse)
    }
}

/// The recombination of a whole half buffer.
pub open spec fn composed_all<T: Scalar>(
    d: Seq<Complex<T>>,
    f: Seq<Complex<T>>,
    inverse: bool,
) -> Seq<Complex<T>> {
    Seq::new(d.len(), |k: int| composed(d, f, inverse, k))
}

/// Converts in place between the complex transform of packed real data and
/// the packed real spectrum (`inverse == false`), or back (`inverse == true`).
pub fn compose<T: Scalar>(
    data: &mut Vec<Complex<T>>,
    n: usize,
    factors: &[Complex<T>],
    inverse: bool,
)
    requires
        old(data)@.len() == n,
        n >= 1,
        is_power_of_two(n as nat),
        factors_fit(n as nat, factors@.len()),
    ensures
        final(data)@.len() == n,
        forall|k: int|
            0 <= k < n ==> final(data)@[k] == composed(old(data)@, factors@, inverse, k),
{
    let ghost d = data@;
    let d0 = data[0];
    let mut c = Complex::new(d0.re.plus(d0.im), d0.re.minus(d0.im));
    if inverse {
        c = c.halve();
    }
    data.set(0, c);
    let m = factors.len();
    let sign = if inverse {
        T::one()
    } else {
        T::one().negate()
    };
    let rot = Complex::new(T::zero(), sign);
    let h = n / 2;
    if n >= 2 {
        assert(n % 2 == 0);
    }
    let mut i: usize = 1;
    while i < h
        invariant
            data@.len() == n,
            d.len() == n,
            m == factors@.len(),
            h == n / 2,
            n >= 2 ==> n % 2 == 0,
            factors_fit(n as nat, m as nat),
            1 <= i <= h || (h == 0 && i == 1),
            data@[0] == dc_nyquist(d[0], inverse),
            rot == rotation::<T>(inverse),
            forall|k: int| 1 <= k < i ==> data@[k] == composed(d, factors@, inverse, k),
            forall|k: int|
                n - i < k < n ==> data@[k] == composed(d, factors@, inverse, k),
            forall|k: int| i <= k <= n - i && k != 0 ==> data@[k] == d[k],
        decreases h - i,
    {
        let j = n - i;
        let x = data[i];
        let y = data[j].conj();
        let part1 = x.add(y);
        let part2 = x.sub(y);
        let product = rot.mul(factors[m - j]).mul(part2);
        data.set(i, part1.add(product).halve());
        data.set(j, part1.sub(product).halve().conj());
        i = i + 1;
    }
    if h > 0 {
        let mid = data[h].conj();
        data.set(h, mid);
    }
}

} // verus!
