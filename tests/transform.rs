use dft::complex::Complex;
use dft::real_transform::{
    finish_forward, finish_inverse, power_of_two, prepare_inverse, to_complex, to_real, transform, ComplexTransform,
    Operation, Plan, TransformError,
};
use dft::scalar::Scalar;

fn c(re: i64, im: i64) -> Complex<i64> {
    Complex { re, im }
}

/// A two-point complex DFT; the inverse direction also divides by two.
struct TwoPoint;

impl ComplexTransform<i64> for TwoPoint {
    fn transform(&self, data: &mut Vec<Complex<i64>>, plan: &Plan<i64>) {
        assert_eq!(data.len(), 2);
        let (a, b) = (data[0], data[1]);
        let (s, d) = (a.add(b), a.sub(b));
        if plan.operation == Operation::Inverse {
            data[0] = c(s.re / 2, s.im / 2);
            data[1] = c(d.re / 2, d.im / 2);
        } else {
            data[0] = s;
            data[1] = d;
        }
    }
}

/// The complex transform of a single point.
struct OnePoint;

impl ComplexTransform<i64> for OnePoint {
    fn transform(&self, _data: &mut Vec<Complex<i64>>, _plan: &Plan<i64>) {}
}

/// An engine that breaks its contract by growing the buffer.
struct Grows;

impl ComplexTransform<i64> for Grows {
    fn transform(&self, data: &mut Vec<Complex<i64>>, _plan: &Plan<i64>) {
        data.push(c(0, 0));
    }
}

fn plan(size: usize, operation: Operation) -> Plan<i64> {
    Plan { size, operation, factors: vec![] }
}

fn forward(x: &[i64]) -> Vec<i64> {
    let mut buffer = x.to_vec();
    assert_eq!(transform(&mut buffer, &plan(4, Operation::Forward), &TwoPoint), Ok(()));
    buffer
}

#[test]
fn forward_four_points() {
    assert_eq!(forward(&[1, 2, 3, 4]), vec![10, -2, -2, 2]);
}

#[test]
fn dc_and_nyquist_are_sums() {
    let x = [7i64, -3, 12, 5];
    let y = forward(&x);
    assert_eq!(y[0], x.iter().sum::<i64>());
    assert_eq!(y[1], x[0] - x[1] + x[2] - x[3]);
}

#[test]
fn forward_then_inverse_restores() {
    let x = vec![1i64, 2, 3, 4];
    let mut buffer = forward(&x);
    assert_eq!(transform(&mut buffer, &plan(4, Operation::Inverse), &TwoPoint), Ok(()));
    assert_eq!(buffer, x);
}

#[test]
fn backward_is_unnormalised() {
    let mut buffer = vec![10i64, -2, -2, 2];
    assert_eq!(transform(&mut buffer, &plan(4, Operation::Backward), &TwoPoint), Ok(()));
    assert_eq!(buffer, vec![2, 4, 6, 8]);
}

#[test]
fn transform_is_linear() {
    let x = [1i64, 2, 3, 4];
    let y = [0i64, 1, 0, -1];
    let mix: Vec<i64> = (0..4).map(|k| 2 * x[k] + 3 * y[k]).collect();
    let (tx, ty) = (forward(&x), forward(&y));
    let expected: Vec<i64> = (0..4).map(|k| 2 * tx[k] + 3 * ty[k]).collect();
    assert_eq!(forward(&mix), expected);
}

#[test]
fn size_mismatch_is_refused() {
    let mut buffer = vec![1i64, 2, 3, 4];
    let r = transform(&mut buffer, &plan(8, Operation::Forward), &TwoPoint);
    assert_eq!(r, Err(TransformError::SizeMismatch));
    assert_eq!(buffer, vec![1, 2, 3, 4]);
}

#[test]
fn malformed_plans_are_refused() {
    let mut buffer = vec![1i64; 6];
    let r = transform(&mut buffer, &plan(6, Operation::Forward), &TwoPoint);
    assert_eq!(r, Err(TransformError::MalformedPlan));
    let mut buffer = vec![1i64; 16];
    let short = Plan { size: 16, operation: Operation::Forward, factors: vec![c(1, 0); 6] };
    assert_eq!(transform(&mut buffer, &short, &TwoPoint), Err(TransformError::MalformedPlan));
    assert_eq!(buffer, vec![1i64; 16]);
    let mut buffer = vec![1i64];
    assert_eq!(
        transform(&mut buffer, &plan(1, Operation::Forward), &TwoPoint),
        Err(TransformError::MalformedPlan)
    );
}

#[test]
fn resizing_engine_is_reported() {
    let mut buffer = vec![1i64, 2, 3, 4];
    let r = transform(&mut buffer, &plan(4, Operation::Forward), &Grows);
    assert_eq!(r, Err(TransformError::EngineResized));
    assert_eq!(buffer, vec![1, 2, 3, 4]);
}

#[test]
fn pairs_round_trip() {
    let b = vec![1i64, 2, 3, 4, 5, 6];
    let h = to_complex(&b);
    assert_eq!(h, vec![c(1, 2), c(3, 4), c(5, 6)]);
    assert_eq!(to_real(&h), b);
}

#[test]
fn forward_and_inverse_halves() {
    let p = plan(4, Operation::Forward);
    assert_eq!(finish_forward(vec![c(4, 6), c(-2, -2)], &p), Ok(vec![10, -2, -2, 2]));
    assert_eq!(finish_forward(vec![c(4, 6)], &p), Err(TransformError::EngineResized));
    assert_eq!(finish_inverse(&vec![c(2, 4), c(6, 8)], 4), Ok(vec![2, 4, 6, 8]));
    assert_eq!(
        finish_inverse(&vec![c(2, 4), c(6, 8), c(0, 0)], 4),
        Err(TransformError::EngineResized)
    );
    assert_eq!(prepare_inverse(&vec![10i64, -2, -2, 2], &p), vec![c(4, 6), c(-2, -2)]);
}

#[test]
fn powers_of_two() {
    assert!(power_of_two(1));
    assert!(power_of_two(2));
    assert!(power_of_two(1024));
    assert!(!power_of_two(0));
    assert!(!power_of_two(6));
    assert!(!power_of_two(1023));
}

#[test]
fn integer_scalar_wraps_and_floors() {
    assert_eq!(i64::MAX.plus(1), i64::MIN);
    assert_eq!(i64::MIN.negate(), i64::MIN);
    assert_eq!((-3i64).halve(), -2);
    assert_eq!(3i64.times(-4), -12);
    assert_eq!(<i64 as Scalar>::one().minus(<i64 as Scalar>::zero()), 1);
}

#[test]
fn two_samples_give_sum_and_difference() {
    let mut buffer = vec![3i64, 5];
    assert_eq!(transform(&mut buffer, &plan(2, Operation::Forward), &OnePoint), Ok(()));
    assert_eq!(buffer, vec![8, -2]);
    let mut buffer = vec![1i64, 2];
    assert_eq!(transform(&mut buffer, &plan(2, Operation::Forward), &OnePoint), Ok(()));
    assert_eq!(buffer, vec![3, -1]);
}

#[test]
fn two_samples_round_trip() {
    let mut buffer = vec![3i64, 5];
    assert_eq!(transform(&mut buffer, &plan(2, Operation::Forward), &OnePoint), Ok(()));
    assert_eq!(transform(&mut buffer, &plan(2, Operation::Inverse), &OnePoint), Ok(()));
    assert_eq!(buffer, vec![3, 5]);
}

#[test]
fn inverse_then_forward_restores() {
    let mut buffer = vec![4i64, 2];
    assert_eq!(transform(&mut buffer, &plan(2, Operation::Inverse), &OnePoint), Ok(()));
    assert_eq!(transform(&mut buffer, &plan(2, Operation::Forward), &OnePoint), Ok(()));
    assert_eq!(buffer, vec![4, 2]);
    let mut buffer = vec![10i64, -2, -2, 2];
    assert_eq!(transform(&mut buffer, &plan(4, Operation::Inverse), &TwoPoint), Ok(()));
    assert_eq!(buffer, vec![1, 2, 3, 4]);
    assert_eq!(transform(&mut buffer, &plan(4, Operation::Forward), &TwoPoint), Ok(()));
    assert_eq!(buffer, vec![10, -2, -2, 2]);
}
