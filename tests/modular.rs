use dft::complex::Complex;
use dft::compose::compose;
use dft::scalar::Mod3::{One, Two, Zero};
use dft::scalar::{Mod3, Scalar};

fn c(re: Mod3, im: Mod3) -> Complex<Mod3> {
    Complex { re, im }
}

#[test]
fn mod3_arithmetic() {
    assert_eq!(Mod3::Two.plus(Mod3::Two), Mod3::One);
    assert_eq!(Mod3::One.minus(Mod3::Two), Mod3::Two);
    assert_eq!(Mod3::Two.times(Mod3::Two), Mod3::One);
    assert_eq!(Mod3::One.negate(), Mod3::Two);
    assert_eq!(Mod3::Zero.negate(), Mod3::Zero);
    assert_eq!(Mod3::One.halve(), Mod3::Two);
    assert_eq!(Mod3::One.halve().plus(Mod3::One.halve()), Mod3::One);
    assert_eq!(Mod3::from_u8(7), Mod3::One);
    assert_eq!(Mod3::Two.value(), 2);
}

#[test]
fn mod3_recombination_round_trip() {
    let original = vec![c(One, Two), c(Two, Two), c(Zero, One), c(One, Zero)];
    let twiddles = vec![c(One, Zero), c(Zero, Zero), c(Zero, Zero)];
    let mut data = original.clone();
    compose(&mut data, 4, &twiddles, false);
    assert_ne!(data, original);
    compose(&mut data, 4, &twiddles, true);
    assert_eq!(data, original);
    let mut data = original.clone();
    compose(&mut data, 4, &twiddles, true);
    compose(&mut data, 4, &twiddles, false);
    assert_eq!(data, original);
}

#[test]
fn mod3_single_entry_round_trip() {
    let original = vec![c(Mod3::Two, Mod3::One)];
    let mut data = original.clone();
    compose(&mut data, 1, &[], false);
    assert_eq!(data, vec![c(Mod3::Zero, Mod3::One)]);
    compose(&mut data, 1, &[], true);
    assert_eq!(data, original);
}
