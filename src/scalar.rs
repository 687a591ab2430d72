//! The number type that the transforms compute with.
use vstd::prelude::*;

verus! {

/// The arithmetic that the transforms need from a number type.
///
/// Each operation has a spec counterpart that contracts speak of; an impl
/// proves that its executable operations agree with them and that the laws
/// below hold.
pub trait Scalar: Sized + Copy {
    spec fn zero_spec() -> Self;

    spec fn one_spec() -> Self;

    spec fn plus_spec(self, other: Self) -> Self;

    spec fn minus_spec(self, other: Self) -> Self;

    spec fn times_spec(self, other: Self) -> Self;

    spec fn negate_spec(self) -> Self;

    spec fn halve_spec(self) -> Self;

    fn zero() -> (r: Self)
        ensures
            r == Self::zero_spec(),
    ;

    fn one() -> (r: Self)
        ensures
            r == Self::one_spec(),
    ;

    fn plus(self, other: Self) -> (r: Self)
        ensures
            r == self.plus_spec(other),
    ;

    fn minus(self, other: Self) -> (r: Self)
        ensures
            r == self.minus_spec(other),
    ;

    fn times(self, other: Self) -> (r: Self)
        ensures
            r == self.times_spec(other),
    ;

    fn negate(self) -> (r: Self)
        ensures
            r == self.negate_spec(),
    ;

    /// Scaling by one half.
    fn halve(self) -> (r: Self)
        ensures
            r == self.halve_spec(),
    ;

    /// Negation undoes itself.
    proof fn lemma_negate_involutive(a: Self)
        ensures
            a.negate_spec().negate_spec() == a,
    ;

}

/// Two's-complement integers with wrapping arithmetic; halving rounds toward
/// negative infinity.
impl Scalar for i64 {
    open spec fn zero_spec() -> i64 {
        0
    }

    open spec fn one_spec() -> i64 {
        1
    }

    open spec fn plus_spec(self, other: i64) -> i64 {
        self.wrapping_add(other)
    }

    open spec fn minus_spec(self, other: i64) -> i64 {
        self.wrapping_sub(other)
    }

    open spec fn times_spec(self, other: i64) -> i64 {
        self.wrapping_mul(other)
    }

    open spec fn negate_spec(self) -> i64 {
        0i64.wrapping_sub(self)
    }

    open spec fn halve_spec(self) -> i64 {
        self >> 1u32
    }

    fn zero() -> (r: i64) {
        0
    }

    fn one() -> (r: i64) {
        1
    }

    fn plus(self, other: i64) -> (r: i64) {
        self.wrapping_add(other)
    }

    fn minus(self, other: i64) -> (r: i64) {
        self.wrapping_sub(other)
    }

    fn times(self, other: i64) -> (r: i64) {
        self.wrapping_mul(other)
    }

    fn negate(self) -> (r: i64) {
        0i64.wrapping_sub(self)
    }

    fn halve(self) -> (r: i64) {
        self >> 1u32
    }

    proof fn lemma_negate_involutive(a: i64) {
    }
}

} // verus!

verus! {

/// The integers modulo three: a field, in which halving is multiplication by
/// two, so that sums and differences halve exactly.
#[derive(Clone, Copy, Debug, PartialEq, Eq)]
pub enum Mod3 {
    Zero,
    One,
    Two,
}

/// The residue that a value of `Mod3` stands for.
pub open spec fn mod3_value(a: Mod3) -> int {
    match a {
        Mod3::Zero => 0,
        Mod3::One => 1,
        Mod3::Two => 2,
    }
}

/// The residue of `n` modulo three.
pub open spec fn mod3_of(n: int) -> Mod3 {
    let r = n % 3;
    if r == 0 {
        Mod3::Zero
    } else if r == 1 {
        Mod3::One
    } else {
        Mod3::Two
    }
}

impl Mod3 {
    /// The residue as a number below three.
    pub fn value(self) -> (r: u8)
        ensures
            r as int == mod3_value(self),
    {
        match self {
            Mod3::Zero => 0,
            Mod3::One => 1,
            Mod3::Two => 2,
        }
    }

    /// The residue of `n` modulo three.
    pub fn from_u8(n: u8) -> (r: Mod3)
        ensures
            r == mod3_of(n as int),
    {
        let k: u8 = n % 3;
        if k == 0 {
            Mod3::Zero
        } else if k == 1 {
            Mod3::One
        } else {
            Mod3::Two
        }
    }
}

impl Scalar for Mod3 {
    open spec fn zero_spec() -> Mod3 {
        Mod3::Zero
    }

    open spec fn one_spec() -> Mod3 {
        Mod3::One
    }

    open spec fn plus_spec(self, other: Mod3) -> Mod3 {
        mod3_of(mod3_value(self) + mod3_value(other))
    }

    open spec fn minus_spec(self, other: Mod3) -> Mod3 {
        mod3_of(mod3_value(self) - mod3_value(other))
    }

    open spec fn times_spec(self, other: Mod3) -> Mod3 {
        mod3_of(mod3_value(self) * mod3_value(other))
    }

    open spec fn negate_spec(self) -> Mod3 {
        mod3_of(-mod3_value(self))
    }

    open spec fn halve_spec(self) -> Mod3 {
        mod3_of(2 * mod3_value(self))
    }

    fn zero() -> (r: Mod3) {
        Mod3::Zero
    }

    fn one() -> (r: Mod3) {
        Mod3::One
    }

    fn plus(self, other: Mod3) -> (r: Mod3) {
        Mod3::from_u8(self.value() + other.value())
    }

    fn minus(self, other: Mod3) -> (r: Mod3) {
        Mod3::from_u8(self.value() + 3 - other.value())
    }

    fn times(self, other: Mod3) -> (r: Mod3) {
        Mod3::from_u8(self.value() * other.value())
    }

    fn negate(self) -> (r: Mod3) {
        Mod3::from_u8(3 - self.value())
    }

    fn halve(self) -> (r: Mod3) {
        Mod3::from_u8(2 * self.value())
    }

    proof fn lemma_negate_involutive(a: Mod3) {
    }
}

} // verus!
