//! Algebraic laws of the recombination on exact arithmetic: it is linear, and
//! each direction undoes the other.
//!
//! Each law assumes properties of the scalar type (`halving_exact`,
//! `additive_laws`, `scaling_laws`) that the real numbers have. Of this
//! crate's scalars, `Mod3` has them all (`lemma_mod3_exact`); the `i64` scalar
//! does not (its halving rounds down and its arithmetic wraps), and floating
//! point has them only up to rounding, so on those types the laws describe the
//! exact computation that they approximate.
use vstd::prelude::*;
use crate::complex::{Complex, c_add, c_conj, c_halve, c_mul, c_sub, lemma_conj_involutive};
use crate::compose::{butterfly_product, composed_all, factors_fit, rotation};
use crate::scalar::{Mod3, Scalar, mod3_of, mod3_value};
use crate::real_transform::{pairs_of, reals_of};
use crate::unpack::{is_power_of_two, lemma_pow2_even};

verus! {

/// Halving splits sums and differences exactly, as it does on exact numbers.
pub open spec fn halving_exact<T: Scalar>() -> bool {
    forall|u: T, v: T|
        #![trigger u.plus_spec(v), u.minus_spec(v)]
        {
            &&& u.plus_spec(v).halve_spec().plus_spec(u.minus_spec(v).halve_spec()) == u
            &&& u.plus_spec(v).halve_spec().minus_spec(u.minus_spec(v).halve_spec()) == v
            &&& u.plus_spec(v).plus_spec(u.minus_spec(v)).halve_spec() == u
            &&& u.plus_spec(v).minus_spec(u.minus_spec(v)).halve_spec() == v
        }
}

/// At every butterfly of a half buffer of length `n`, the twiddle of `g`,
/// rotated for the direction opposite to `first`, undoes the twiddle of `f`
/// rotated for `first`.
pub open spec fn twiddles_undo<T: Scalar>(
    n: nat,
    f: Seq<Complex<T>>,
    first: bool,
    g: Seq<Complex<T>>,
) -> bool {
    forall|j: int, p: Complex<T>|
        n / 2 < j < n ==> c_mul(
            c_mul(rotation(!first), g[g.len() - j]),
            #[trigger] c_mul(c_mul(rotation(first), f[f.len() - j]), p),
        ) == p
}

proof fn lemma_halves_recombine<T: Scalar>(a: Complex<T>, b: Complex<T>)
    requires
        halving_exact::<T>(),
    ensures
        c_add(c_halve(c_add(a, b)), c_halve(c_sub(a, b))) == a,
        c_sub(c_halve(c_add(a, b)), c_halve(c_sub(a, b))) == b,
        c_halve(c_add(c_add(a, b), c_sub(a, b))) == a,
        c_halve(c_sub(c_add(a, b), c_sub(a, b))) == b,
{
    assert(a.re.plus_spec(b.re) == a.re.plus_spec(b.re) && a.re.minus_spec(b.re)
        == a.re.minus_spec(b.re));
    assert(a.im.plus_spec(b.im) == a.im.plus_spec(b.im) && a.im.minus_spec(b.im)
        == a.im.minus_spec(b.im));
}

/// Recombining a half buffer in one direction (`first`) with twiddles `f`, then
/// in the other with twiddles `g` that undo them, restores it, where halving is
/// exact: forward then inverse, and inverse then forward.
pub proof fn lemma_compose_round_trip<T: Scalar>(
    d: Seq<Complex<T>>,
    f: Seq<Complex<T>>,
    first: bool,
    g: Seq<Complex<T>>,
)
    requires
        d.len() >= 1,
        is_power_of_two(d.len()),
        factors_fit(d.len(), f.len()),
        factors_fit(d.len(), g.len()),
        halving_exact::<T>(),
        twiddles_undo(d.len(), f, first, g),
    ensures
        composed_all(composed_all(d, f, first), g, !first) == d,
{
    let n = d.len() as int;
    let e = composed_all(d, f, first);
    let r = composed_all(e, g, !first);
    if n >= 2 {
        lemma_pow2_even(d.len());
    }
    assert forall|k: int| 0 <= k < n implies r[k] == d[k] by {
        if k == 0 {
            let a = d[0].re;
            let b = d[0].im;
            assert(a.plus_spec(b) == a.plus_spec(b) && a.minus_spec(b) == a.minus_spec(b));
        } else if k == n / 2 {
            lemma_conj_involutive(d[k]);
        } else {
            let i = if k < n / 2 {
                k
            } else {
                n - k
            };
            let j = n - i;
            let x = d[i];
            let y = d[j];
            let w = f[f.len() - j];
            let p1 = c_add(x, c_conj(y));
            let p2 = c_sub(x, c_conj(y));
            let big = butterfly_product(x, y, w, first);
            assert(e[i] == c_halve(c_add(p1, big)));
            assert(e[j] == c_conj(c_halve(c_sub(p1, big))));
            lemma_conj_involutive(c_halve(c_sub(p1, big)));
            lemma_halves_recombine(p1, big);
            assert(c_add(e[i], c_conj(e[j])) == p1);
            assert(c_sub(e[i], c_conj(e[j])) == big);
            assert(butterfly_product(e[i], e[j], g[g.len() - j], !first) == p2);
            lemma_halves_recombine(x, c_conj(y));
            lemma_conj_involutive(y);
            assert(r[i] == x);
            assert(r[j] == y);
        }
    }
    assert(r =~= d);
}

} // verus!

verus! {

/// Addition regroups, and halving, negation and multiplication distribute
/// over it, as they do on exact numbers.
pub open spec fn additive_laws<T: Scalar>() -> bool {
    &&& forall|a: T, b: T, c: T, e: T|
        #[trigger] a.plus_spec(b).plus_spec(c.plus_spec(e)) == a.plus_spec(c).plus_spec(
            b.plus_spec(e),
        )
    &&& forall|a: T, b: T, c: T, e: T|
        #[trigger] a.plus_spec(b).minus_spec(c.plus_spec(e)) == a.minus_spec(c).plus_spec(
            b.minus_spec(e),
        )
    &&& forall|a: T, b: T| #[trigger]
        a.plus_spec(b).halve_spec() == a.halve_spec().plus_spec(b.halve_spec())
    &&& forall|a: T, b: T| #[trigger]
        a.plus_spec(b).negate_spec() == a.negate_spec().plus_spec(b.negate_spec())
    &&& forall|a: T, b: T, c: T| #[trigger]
        a.times_spec(b.plus_spec(c)) == a.times_spec(b).plus_spec(a.times_spec(c))
}

/// The entrywise sum of two complex sequences.
pub open spec fn sum_all<T: Scalar>(x: Seq<Complex<T>>, y: Seq<Complex<T>>) -> Seq<Complex<T>> {
    Seq::new(x.len(), |k: int| c_add(x[k], y[k]))
}

proof fn lemma_complex_additive<T: Scalar>(a: Complex<T>, b: Complex<T>, c: Complex<T>, e: Complex<T>)
    requires
        additive_laws::<T>(),
    ensures
        c_conj(c_add(a, b)) == c_add(c_conj(a), c_conj(b)),
        c_halve(c_add(a, b)) == c_add(c_halve(a), c_halve(b)),
        c_add(c_add(a, b), c_add(c, e)) == c_add(c_add(a, c), c_add(b, e)),
        c_sub(c_add(a, b), c_add(c, e)) == c_add(c_sub(a, c), c_sub(b, e)),
        c_mul(c, c_add(a, b)) == c_add(c_mul(c, a), c_mul(c, b)),
{
    assert(c.re.times_spec(a.re.plus_spec(b.re)) == c.re.times_spec(a.re).plus_spec(
        c.re.times_spec(b.re),
    ));
    assert(c.im.times_spec(a.im.plus_spec(b.im)) == c.im.times_spec(a.im).plus_spec(
        c.im.times_spec(b.im),
    ));
    assert(c.re.times_spec(a.im.plus_spec(b.im)) == c.re.times_spec(a.im).plus_spec(
        c.re.times_spec(b.im),
    ));
    assert(c.im.times_spec(a.re.plus_spec(b.re)) == c.im.times_spec(a.re).plus_spec(
        c.im.times_spec(b.re),
    ));
}

/// The recombination of the entrywise sum of two half buffers is the entrywise
/// sum of their recombinations, where the additive laws hold.
pub proof fn lemma_compose_additive<T: Scalar>(
    x: Seq<Complex<T>>,
    y: Seq<Complex<T>>,
    f: Seq<Complex<T>>,
    inverse: bool,
)
    requires
        x.len() == y.len(),
        x.len() >= 1,
        is_power_of_two(x.len()),
        factors_fit(x.len(), f.len()),
        additive_laws::<T>(),
    ensures
        composed_all(sum_all(x, y), f, inverse) == sum_all(
            composed_all(x, f, inverse),
            composed_all(y, f, inverse),
        ),
{
    let n = x.len() as int;
    let s = sum_all(x, y);
    let l = composed_all(s, f, inverse);
    let r = sum_all(composed_all(x, f, inverse), composed_all(y, f, inverse));
    if n >= 2 {
        lemma_pow2_even(x.len());
    }
    assert forall|k: int| 0 <= k < n implies l[k] == r[k] by {
        if k == 0 || k == n / 2 {
            let (a, b) = (x[0], y[0]);
            let dx = Complex { re: a.re.plus_spec(a.im), im: a.re.minus_spec(a.im) };
            let dy = Complex { re: b.re.plus_spec(b.im), im: b.re.minus_spec(b.im) };
            assert(a.re.plus_spec(b.re).plus_spec(a.im.plus_spec(b.im)) == dx.re.plus_spec(
                dy.re,
            ));
            assert(a.re.plus_spec(b.re).minus_spec(a.im.plus_spec(b.im)) == dx.im.plus_spec(
                dy.im,
            ));
            lemma_complex_additive(dx, dy, dx, dy);
            lemma_complex_additive(c_halve(dx), c_halve(dy), dx, dy);
            lemma_complex_additive(x[k], y[k], dx, dy);
        } else {
            let i = if k < n / 2 {
                k
            } else {
                n - k
            };
            let j = n - i;
            let w = f[f.len() - j];
            let rw = c_mul(rotation(inverse), w);
            let (xi, xj, yi, yj) = (x[i], x[j], y[i], y[j]);
            lemma_complex_additive(xj, yj, xj, yj);
            let p1x = c_add(xi, c_conj(xj));
            let p1y = c_add(yi, c_conj(yj));
            let p2x = c_sub(xi, c_conj(xj));
            let p2y = c_sub(yi, c_conj(yj));
            lemma_complex_additive(xi, yi, c_conj(xj), c_conj(yj));
            lemma_complex_additive(p2x, p2y, rw, rw);
            let bx = c_mul(rw, p2x);
            let by_ = c_mul(rw, p2y);
            lemma_complex_additive(p1x, p1y, bx, by_);
            lemma_complex_additive(c_add(p1x, bx), c_add(p1y, by_), bx, by_);
            lemma_complex_additive(c_sub(p1x, bx), c_sub(p1y, by_), bx, by_);
            lemma_complex_additive(
                c_halve(c_sub(p1x, bx)),
                c_halve(c_sub(p1y, by_)),
                bx,
                by_,
            );
            assert(l[i] == r[i]);
            assert(l[j] == r[j]);
        }
    }
    assert(l =~= r);
}

} // verus!

verus! {

/// Multiplication by a scalar distributes over differences, commutes with
/// negation and halving, and with another factor, as on exact numbers.
pub open spec fn scaling_laws<T: Scalar>() -> bool {
    &&& forall|s: T, a: T, b: T| #[trigger]
        s.times_spec(a.minus_spec(b)) == s.times_spec(a).minus_spec(s.times_spec(b))
    &&& forall|s: T, a: T| #[trigger] s.times_spec(a.negate_spec()) == s.times_spec(a).negate_spec()
    &&& forall|s: T, a: T| #[trigger] s.times_spec(a.halve_spec()) == s.times_spec(a).halve_spec()
    &&& forall|s: T, a: T, b: T| #[trigger] a.times_spec(s.times_spec(b)) == s.times_spec(a.times_spec(b))
}

/// A complex value multiplied by the scalar `s`.
pub open spec fn c_scale<T: Scalar>(s: T, a: Complex<T>) -> Complex<T> {
    Complex { re: s.times_spec(a.re), im: s.times_spec(a.im) }
}

/// Every entry of a complex sequence multiplied by the scalar `s`.
pub open spec fn scale_all<T: Scalar>(s: T, x: Seq<Complex<T>>) -> Seq<Complex<T>> {
    Seq::new(x.len(), |k: int| c_scale(s, x[k]))
}

proof fn lemma_complex_scaling<T: Scalar>(s: T, a: Complex<T>, b: Complex<T>, c: Complex<T>)
    requires
        additive_laws::<T>(),
        scaling_laws::<T>(),
    ensures
        c_scale(s, c_conj(a)) == c_conj(c_scale(s, a)),
        c_scale(s, c_halve(a)) == c_halve(c_scale(s, a)),
        c_scale(s, c_add(a, b)) == c_add(c_scale(s, a), c_scale(s, b)),
        c_scale(s, c_sub(a, b)) == c_sub(c_scale(s, a), c_scale(s, b)),
        c_mul(c, c_scale(s, a)) == c_scale(s, c_mul(c, a)),
{
    assert(s.times_spec(a.re.plus_spec(b.re)) == s.times_spec(a.re).plus_spec(s.times_spec(b.re)));
    assert(s.times_spec(a.im.plus_spec(b.im)) == s.times_spec(a.im).plus_spec(s.times_spec(b.im)));
    let (p, q, u, v) = (c.re.times_spec(a.re), c.im.times_spec(a.im), c.re.times_spec(a.im), c.im.times_spec(a.re));
    assert(c.re.times_spec(s.times_spec(a.re)) == s.times_spec(p));
    assert(c.im.times_spec(s.times_spec(a.im)) == s.times_spec(q));
    assert(c.re.times_spec(s.times_spec(a.im)) == s.times_spec(u));
    assert(c.im.times_spec(s.times_spec(a.re)) == s.times_spec(v));
    assert(s.times_spec(p.minus_spec(q)) == s.times_spec(p).minus_spec(s.times_spec(q)));
    assert(s.times_spec(u.plus_spec(v)) == s.times_spec(u).plus_spec(s.times_spec(v)));
}

/// The recombination of a half buffer multiplied by a scalar is its
/// recombination multiplied by that scalar, where the laws hold.
pub proof fn lemma_compose_homogeneous<T: Scalar>(
    s: T,
    x: Seq<Complex<T>>,
    f: Seq<Complex<T>>,
    inverse: bool,
)
    requires
        x.len() >= 1,
        is_power_of_two(x.len()),
        factors_fit(x.len(), f.len()),
        additive_laws::<T>(),
        scaling_laws::<T>(),
    ensures
        composed_all(scale_all(s, x), f, inverse) == scale_all(s, composed_all(x, f, inverse)),
{
    let n = x.len() as int;
    let l = composed_all(scale_all(s, x), f, inverse);
    let r = scale_all(s, composed_all(x, f, inverse));
    if n >= 2 {
        lemma_pow2_even(x.len());
    }
    assert forall|k: int| 0 <= k < n implies l[k] == r[k] by {
        if k == 0 || k == n / 2 {
            let a = x[0];
            let d = Complex { re: a.re.plus_spec(a.im), im: a.re.minus_spec(a.im) };
            assert(s.times_spec(a.re.plus_spec(a.im)) == s.times_spec(a.re).plus_spec(
                s.times_spec(a.im),
            ));
            assert(s.times_spec(a.re.minus_spec(a.im)) == s.times_spec(a.re).minus_spec(
                s.times_spec(a.im),
            ));
            lemma_complex_scaling(s, d, d, d);
            lemma_complex_scaling(s, c_halve(d), d, d);
            lemma_complex_scaling(s, x[k], d, d);
        } else {
            let i = if k < n / 2 {
                k
            } else {
                n - k
            };
            let j = n - i;
            let rw = c_mul(rotation(inverse), f[f.len() - j]);
            let (xi, xj) = (x[i], x[j]);
            let p1 = c_add(xi, c_conj(xj));
            let p2 = c_sub(xi, c_conj(xj));
            let b = c_mul(rw, p2);
            lemma_complex_scaling(s, xj, xj, rw);
            lemma_complex_scaling(s, xi, c_conj(xj), rw);
            lemma_complex_scaling(s, p2, p2, rw);
            lemma_complex_scaling(s, p1, b, rw);
            lemma_complex_scaling(s, c_add(p1, b), b, rw);
            lemma_complex_scaling(s, c_sub(p1, b), b, rw);
            lemma_complex_scaling(s, c_halve(c_sub(p1, b)), b, rw);
            assert(l[i] == r[i]);
            assert(l[j] == r[j]);
        }
    }
    assert(l =~= r);
}

/// The recombination is linear: that of `a x + b y` is `a` times that of `x`
/// plus `b` times that of `y`, where the laws hold.
pub proof fn lemma_compose_linear<T: Scalar>(
    a: T,
    x: Seq<Complex<T>>,
    b: T,
    y: Seq<Complex<T>>,
    f: Seq<Complex<T>>,
    inverse: bool,
)
    requires
        x.len() == y.len(),
        x.len() >= 1,
        is_power_of_two(x.len()),
        factors_fit(x.len(), f.len()),
        additive_laws::<T>(),
        scaling_laws::<T>(),
    ensures
        composed_all(sum_all(scale_all(a, x), scale_all(b, y)), f, inverse) == sum_all(
            scale_all(a, composed_all(x, f, inverse)),
            scale_all(b, composed_all(y, f, inverse)),
        ),
{
    lemma_compose_additive(scale_all(a, x), scale_all(b, y), f, inverse);
    lemma_compose_homogeneous(a, x, f, inverse);
    lemma_compose_homogeneous(b, y, f, inverse);
}

} // verus!

verus! {

/// Reading interleaved parts back as pairs gives the complex values again.
pub proof fn lemma_pairs_of_reals<T: Scalar>(h: Seq<Complex<T>>)
    ensures
        pairs_of(reals_of(h)) == h,
{
    let p = pairs_of(reals_of(h));
    assert forall|k: int| 0 <= k < h.len() implies p[k] == h[k] by {
        assert((2 * k) / 2 == k && (2 * k + 1) / 2 == k && (2 * k) % 2 == 0 && (2 * k + 1) % 2
            == 1);
    }
    assert(p =~= h);
}

/// Laying interleaved parts of even length out as pairs and back gives the
/// parts again.
pub proof fn lemma_reals_of_pairs<T: Scalar>(b: Seq<T>)
    requires
        b.len() % 2 == 0,
    ensures
        reals_of(pairs_of(b)) == b,
{
    let r = reals_of(pairs_of(b));
    assert forall|k: int| 0 <= k < b.len() implies r[k] == b[k] by {
        if k % 2 == 0 {
            assert(2 * (k / 2) == k);
        } else {
            assert(2 * (k / 2) + 1 == k);
        }
    }
    assert(r =~= b);
}

/// What the forward finish makes of a complex transform's output, the inverse
/// preparation with twiddles that undo the forward ones turns back into that
/// output, where halving is exact.
pub proof fn lemma_finish_prepare_round_trip<T: Scalar>(
    h: Seq<Complex<T>>,
    f: Seq<Complex<T>>,
    g: Seq<Complex<T>>,
)
    requires
        h.len() >= 1,
        is_power_of_two(h.len()),
        factors_fit(h.len(), f.len()),
        factors_fit(h.len(), g.len()),
        halving_exact::<T>(),
        twiddles_undo(h.len(), f, false, g),
    ensures
        composed_all(pairs_of(reals_of(composed_all(h, f, false))), g, true) == h,
{
    lemma_pairs_of_reals(composed_all(h, f, false));
    lemma_compose_round_trip(h, f, false, g);
}

/// What the inverse preparation with twiddles `g` makes of a packed spectrum
/// `b`, the forward finish with twiddles `f` that undo them turns back into
/// `b`, where halving is exact.
pub proof fn lemma_prepare_finish_round_trip<T: Scalar>(
    b: Seq<T>,
    g: Seq<Complex<T>>,
    f: Seq<Complex<T>>,
)
    requires
        b.len() % 2 == 0,
        b.len() >= 2,
        is_power_of_two(b.len() / 2),
        factors_fit(b.len() / 2, f.len()),
        factors_fit(b.len() / 2, g.len()),
        halving_exact::<T>(),
        twiddles_undo(b.len() / 2, g, true, f),
    ensures
        reals_of(composed_all(composed_all(pairs_of(b), g, true), f, false)) == b,
{
    lemma_compose_round_trip(pairs_of(b), g, true, f);
    lemma_reals_of_pairs(b);
}

} // verus!

verus! {

proof fn lemma_mod3_of_value(n: int)
    ensures
        mod3_value(mod3_of(n)) == n % 3,
{
}

proof fn lemma_mod3_residues()
    ensures
        forall|n: int| #[trigger] mod3_value(mod3_of(n)) == n % 3,
        forall|a: Mod3| 0 <= #[trigger] mod3_value(a) < 3,
        forall|a: Mod3, b: Mod3| mod3_value(a) == mod3_value(b) ==> a == b,
{
}

proof fn lemma_mod3_halves(u: Mod3, v: Mod3)
    ensures
        u.plus_spec(v).halve_spec().plus_spec(u.minus_spec(v).halve_spec()) == u,
        u.plus_spec(v).halve_spec().minus_spec(u.minus_spec(v).halve_spec()) == v,
        u.plus_spec(v).plus_spec(u.minus_spec(v)).halve_spec() == u,
        u.plus_spec(v).minus_spec(u.minus_spec(v)).halve_spec() == v,
{
    lemma_mod3_residues();
}

proof fn lemma_mod3_regroup(a: Mod3, b: Mod3, c: Mod3, e: Mod3)
    ensures
        a.plus_spec(b).plus_spec(c.plus_spec(e)) == a.plus_spec(c).plus_spec(b.plus_spec(e)),
        a.plus_spec(b).minus_spec(c.plus_spec(e)) == a.minus_spec(c).plus_spec(b.minus_spec(e)),
{
    let (x, y, z, w) = (mod3_value(a), mod3_value(b), mod3_value(c), mod3_value(e));
    lemma_mod3_of_value(x + y);
    lemma_mod3_of_value(z + w);
    lemma_mod3_of_value(x + z);
    lemma_mod3_of_value(y + w);
    lemma_mod3_of_value(x - z);
    lemma_mod3_of_value(y - w);
    assert(0 <= x < 3 && 0 <= y < 3 && 0 <= z < 3 && 0 <= w < 3);
    assert(((x + y) % 3 + (z + w) % 3) % 3 == ((x + z) % 3 + (y + w) % 3) % 3);
    assert(((x + y) % 3 - (z + w) % 3) % 3 == ((x - z) % 3 + (y - w) % 3) % 3);
}

proof fn lemma_mod3_distribute(a: Mod3, b: Mod3)
    ensures
        a.plus_spec(b).halve_spec() == a.halve_spec().plus_spec(b.halve_spec()),
        a.plus_spec(b).negate_spec() == a.negate_spec().plus_spec(b.negate_spec()),
{
    lemma_mod3_residues();
}

proof fn lemma_mod3_times(s: Mod3, a: Mod3, b: Mod3)
    ensures
        s.times_spec(a.plus_spec(b)) == s.times_spec(a).plus_spec(s.times_spec(b)),
        s.times_spec(a.minus_spec(b)) == s.times_spec(a).minus_spec(s.times_spec(b)),
        s.times_spec(a.negate_spec()) == s.times_spec(a).negate_spec(),
        s.times_spec(a.halve_spec()) == s.times_spec(a).halve_spec(),
        a.times_spec(s.times_spec(b)) == s.times_spec(a.times_spec(b)),
{
    lemma_mod3_residues();
    match s {
        Mod3::Zero => {},
        Mod3::One => {},
        Mod3::Two => {},
    }
    match a {
        Mod3::Zero => {},
        Mod3::One => {},
        Mod3::Two => {},
    }
}

/// The integers modulo three meet every premise of the laws above.
pub proof fn lemma_mod3_exact()
    ensures
        halving_exact::<Mod3>(),
        additive_laws::<Mod3>(),
        scaling_laws::<Mod3>(),
{
    assert forall|u: Mod3, v: Mod3|
        #![trigger u.plus_spec(v), u.minus_spec(v)]
        {
            &&& u.plus_spec(v).halve_spec().plus_spec(u.minus_spec(v).halve_spec()) == u
            &&& u.plus_spec(v).halve_spec().minus_spec(u.minus_spec(v).halve_spec()) == v
            &&& u.plus_spec(v).plus_spec(u.minus_spec(v)).halve_spec() == u
            &&& u.plus_spec(v).minus_spec(u.minus_spec(v)).halve_spec() == v
        } by {
        lemma_mod3_halves(u, v);
    }
    assert forall|a: Mod3, b: Mod3, c: Mod3, e: Mod3|
        #[trigger] a.plus_spec(b).plus_spec(c.plus_spec(e)) == a.plus_spec(c).plus_spec(
            b.plus_spec(e),
        ) by {
        lemma_mod3_regroup(a, b, c, e);
    }
    assert forall|a: Mod3, b: Mod3, c: Mod3, e: Mod3|
        #[trigger] a.plus_spec(b).minus_spec(c.plus_spec(e)) == a.minus_spec(c).plus_spec(
            b.minus_spec(e),
        ) by {
        lemma_mod3_regroup(a, b, c, e);
    }
    assert forall|a: Mod3, b: Mod3| #[trigger]
        a.plus_spec(b).halve_spec() == a.halve_spec().plus_spec(b.halve_spec()) by {
        lemma_mod3_distribute(a, b);
    }
    assert forall|a: Mod3, b: Mod3| #[trigger]
        a.plus_spec(b).negate_spec() == a.negate_spec().plus_spec(b.negate_spec()) by {
        lemma_mod3_distribute(a, b);
    }
    assert forall|a: Mod3, b: Mod3, c: Mod3| #[trigger]
        a.times_spec(b.plus_spec(c)) == a.times_spec(b).plus_spec(a.times_spec(c)) by {
        lemma_mod3_times(a, b, c);
    }
    assert forall|s: Mod3, a: Mod3, b: Mod3| #[trigger]
        s.times_spec(a.minus_spec(b)) == s.times_spec(a).minus_spec(s.times_spec(b)) by {
        lemma_mod3_times(s, a, b);
    }
    assert forall|s: Mod3, a: Mod3| #[trigger]
        s.times_spec(a.negate_spec()) == s.times_spec(a).negate_spec() by {
        lemma_mod3_times(s, a, a);
    }
    assert forall|s: Mod3, a: Mod3| #[trigger]
        s.times_spec(a.halve_spec()) == s.times_spec(a).halve_spec() by {
        lemma_mod3_times(s, a, a);
    }
    assert forall|s: Mod3, a: Mod3, b: Mod3| #[trigger]
        a.times_spec(s.times_spec(b)) == s.times_spec(a.times_spec(b)) by {
        lemma_mod3_times(s, a, b);
    }
}

} // verus!
