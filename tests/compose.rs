use dft::complex::Complex;
use dft::compose::compose;

fn c(re: i64, im: i64) -> Complex<i64> {
    Complex { re, im }
}

#[test]
fn compose_forward_butterfly() {
    let mut data = vec![c(1, 2), c(3, 4), c(5, 6), c(7, 8)];
    let factors = vec![c(2, 1), c(0, 0), c(0, 0)];
    compose(&mut data, 4, &factors, false);
    assert_eq!(data, vec![c(3, -1), c(15, 8), c(5, -6), c(-5, 12)]);
}

#[test]
fn compose_inverse_butterfly() {
    let mut data = vec![c(1, 2), c(3, 4), c(5, 6), c(7, 8)];
    let factors = vec![c(1, 0), c(0, 0), c(0, 0)];
    compose(&mut data, 4, &factors, true);
    assert_eq!(data, vec![c(1, -1), c(-1, -4), c(5, -6), c(11, 0)]);
}

#[test]
fn compose_forward_identity_twiddle() {
    let mut data = vec![c(1, 2), c(3, 4), c(5, 6), c(7, 8)];
    let factors = vec![c(1, 0), c(0, 0), c(0, 0)];
    compose(&mut data, 4, &factors, false);
    assert_eq!(data, vec![c(3, -1), c(11, 0), c(5, -6), c(-1, 4)]);
}

#[test]
fn compose_single_entry() {
    let mut data = vec![c(3, 5)];
    compose(&mut data, 1, &[], false);
    assert_eq!(data, vec![c(8, -2)]);
    let mut data = vec![c(3, 5)];
    compose(&mut data, 1, &[], true);
    assert_eq!(data, vec![c(4, -1)]);
}

#[test]
fn complex_arithmetic() {
    assert_eq!(c(1, 2).add(c(3, -5)), c(4, -3));
    assert_eq!(c(1, 2).sub(c(3, -5)), c(-2, 7));
    assert_eq!(c(1, 2).mul(c(3, -5)), c(13, 1));
    assert_eq!(c(1, 2).conj(), c(1, -2));
    assert_eq!(c(7, -3).halve(), c(3, -2));
}
