use vstd::prelude::*;

use crate::error::FstError;

verus! {

/// A semiring `(W, plus, times, zero, one)` with a reverse operation.
///
/// The spec functions give the mathematical operations; the exec methods compute them;
/// the proof methods state the semiring laws that every implementation must establish.
pub trait Semiring: Sized {
    spec fn zero_spec() -> Self;

    spec fn one_spec() -> Self;

    spec fn plus_spec(a: Self, b: Self) -> Self;

    spec fn times_spec(a: Self, b: Self) -> Self;

    spec fn reverse_spec(a: Self) -> Self;

    /// The additive identity.
    fn zero() -> (r: Self)
        ensures
            r == Self::zero_spec(),
    ;

    /// The multiplicative identity.
    fn one() -> (r: Self)
        ensures
            r == Self::one_spec(),
    ;

    fn plus(&self, rhs: &Self) -> (r: Self)
        ensures
            r == Self::plus_spec(*self, *rhs),
    ;

    fn times(&self, rhs: &Self) -> (r: Self)
        ensures
            r == Self::times_spec(*self, *rhs),
    ;

    fn is_zero(&self) -> (r: bool)
        ensures
            r == (*self == Self::zero_spec()),
    ;

    /// The weight in the reverse semiring (the identity for commutative semirings).
    fn reverse(&self) -> (r: Self)
        ensures
            r == Self::reverse_spec(*self),
    ;

    /// A copy equal to `self`.
    fn duplicate(&self) -> (r: Self)
        ensures
            r == *self,
    ;

    /// Whether two weights are equal.
    fn equals(&self, rhs: &Self) -> (r: bool)
        ensures
            r == (*self == *rhs),
    ;

    proof fn lemma_plus_associative(a: Self, b: Self, c: Self)
        ensures
            Self::plus_spec(Self::plus_spec(a, b), c) == Self::plus_spec(a, Self::plus_spec(b, c)),
    ;

    proof fn lemma_plus_commutative(a: Self, b: Self)
        ensures
            Self::plus_spec(a, b) == Self::plus_spec(b, a),
    ;

    proof fn lemma_plus_zero(a: Self)
        ensures
            Self::plus_spec(a, Self::zero_spec()) == a,
            Self::plus_spec(Self::zero_spec(), a) == a,
    ;

    proof fn lemma_times_associative(a: Self, b: Self, c: Self)
        ensures
            Self::times_spec(Self::times_spec(a, b), c) == Self::times_spec(
                a,
                Self::times_spec(b, c),
            ),
    ;

    proof fn lemma_times_one(a: Self)
        ensures
            Self::times_spec(a, Self::one_spec()) == a,
            Self::times_spec(Self::one_spec(), a) == a,
    ;

    proof fn lemma_times_zero(a: Self)
        ensures
            Self::times_spec(a, Self::zero_spec()) == Self::zero_spec(),
            Self::times_spec(Self::zero_spec(), a) == Self::zero_spec(),
    ;

    proof fn lemma_distributive(a: Self, b: Self, c: Self)
        ensures
            Self::times_spec(a, Self::plus_spec(b, c)) == Self::plus_spec(
                Self::times_spec(a, b),
                Self::times_spec(a, c),
            ),
            Self::times_spec(Self::plus_spec(a, b), c) == Self::plus_spec(
                Self::times_spec(a, c),
                Self::times_spec(b, c),
            ),
    ;

    proof fn lemma_reverse_involutive(a: Self)
        ensures
            Self::reverse_spec(Self::reverse_spec(a)) == a,
    ;

    /// Reversal turns products around and keeps sums, zero and one.
    proof fn lemma_reverse_homomorphism(a: Self, b: Self)
        ensures
            Self::reverse_spec(Self::times_spec(a, b)) == Self::times_spec(
                Self::reverse_spec(b),
                Self::reverse_spec(a),
            ),
            Self::reverse_spec(Self::plus_spec(a, b)) == Self::plus_spec(
                Self::reverse_spec(a),
                Self::reverse_spec(b),
            ),
            Self::reverse_spec(Self::one_spec()) == Self::one_spec(),
            Self::reverse_spec(Self::zero_spec()) == Self::zero_spec(),
    ;
}

/// A semiring with division: `divide(a, b) * b == a` when `b` is not zero and `b` is at
/// most `a` in the semiring's order (`a + b == b`), as the potentials of weight pushing are.
pub trait WeaklyDivisibleSemiring: Semiring {
    spec fn divide_spec(a: Self, b: Self) -> Self;

    /// `self` divided by `rhs`; fails with `DivisionByZero` when `rhs` is zero.
    fn divide(&self, rhs: &Self) -> (r: Result<Self, FstError>)
        ensures
            *rhs == Self::zero_spec() ==> r == Err::<Self, FstError>(FstError::DivisionByZero),
            *rhs != Self::zero_spec() ==> r == Ok::<Self, FstError>(Self::divide_spec(*self, *rhs)),
    ;

    proof fn lemma_divide(a: Self, b: Self)
        requires
            b != Self::zero_spec(),
            Self::plus_spec(a, b) == b,
        ensures
            Self::times_spec(Self::divide_spec(a, b), b) == a,
    ;
}

/// The Boolean semiring: `plus` is OR, `times` is AND.
#[derive(Debug, PartialEq, Eq, Structural)]
pub struct BooleanWeight {
    pub value: bool,
}

impl BooleanWeight {
    pub fn new(value: bool) -> (r: Self)
        ensures
            r.value == value,
    {
        BooleanWeight { value }
    }

    pub fn value(&self) -> (r: bool)
        ensures
            r == self.value,
    {
        self.value
    }

    pub fn set_value(&mut self, value: bool)
        ensures
            final(self).value == value,
    {
        self.value = value;
    }

    /// The star closure `one + a + a*a + ...`, which is always `true`.
    pub fn closure(&self) -> (r: Self)
        ensures
            r.value,
    {
        BooleanWeight { value: true }
    }
}

impl Clone for BooleanWeight {
    fn clone(&self) -> (r: Self)
        ensures
            r == *self,
    {
        BooleanWeight { value: self.value }
    }
}

impl Semiring for BooleanWeight {
    open spec fn zero_spec() -> Self {
        BooleanWeight { value: false }
    }

    open spec fn one_spec() -> Self {
        BooleanWeight { value: true }
    }

    open spec fn plus_spec(a: Self, b: Self) -> Self {
        BooleanWeight { value: a.value || b.value }
    }

    open spec fn times_spec(a: Self, b: Self) -> Self {
        BooleanWeight { value: a.value && b.value }
    }

    open spec fn reverse_spec(a: Self) -> Self {
        a
    }

    fn zero() -> (r: Self) {
        BooleanWeight { value: false }
    }

    fn one() -> (r: Self) {
        BooleanWeight { value: true }
    }

    fn plus(&self, rhs: &Self) -> (r: Self) {
        BooleanWeight { value: self.value || rhs.value }
    }

    fn times(&self, rhs: &Self) -> (r: Self) {
        BooleanWeight { value: self.value && rhs.value }
    }

    fn is_zero(&self) -> (r: bool) {
        !self.value
    }

    fn reverse(&self) -> (r: Self) {
        BooleanWeight { value: self.value }
    }

    fn duplicate(&self) -> (r: Self) {
        BooleanWeight { value: self.value }
    }

    fn equals(&self, rhs: &Self) -> (r: bool) {
        self.value == rhs.value
    }

    proof fn lemma_plus_associative(a: Self, b: Self, c: Self) {
    }

    proof fn lemma_plus_commutative(a: Self, b: Self) {
    }

    proof fn lemma_plus_zero(a: Self) {
    }

    proof fn lemma_times_associative(a: Self, b: Self, c: Self) {
    }

    proof fn lemma_times_one(a: Self) {
    }

    proof fn lemma_times_zero(a: Self) {
    }

    proof fn lemma_distributive(a: Self, b: Self, c: Self) {
    }

    proof fn lemma_reverse_involutive(a: Self) {
    }

    proof fn lemma_reverse_homomorphism(a: Self, b: Self) {
    }
}

impl std::ops::Add for BooleanWeight {
    type Output = BooleanWeight;

    /// The semiring sum, as `plus`.
    fn add(self, rhs: BooleanWeight) -> (r: BooleanWeight)
        ensures
            r == BooleanWeight::plus_spec(self, rhs),
    {
        self.plus(&rhs)
    }
}

impl vstd::std_specs::ops::AddSpecImpl for BooleanWeight {
    open spec fn obeys_add_spec() -> bool {
        true
    }

    open spec fn add_req(self, rhs: BooleanWeight) -> bool {
        true
    }

    open spec fn add_spec(self, rhs: BooleanWeight) -> BooleanWeight {
        BooleanWeight::plus_spec(self, rhs)
    }
}

impl vstd::std_specs::ops::MulSpecImpl for BooleanWeight {
    open spec fn obeys_mul_spec() -> bool {
        true
    }

    open spec fn mul_req(self, rhs: BooleanWeight) -> bool {
        true
    }

    open spec fn mul_spec(self, rhs: BooleanWeight) -> BooleanWeight {
        BooleanWeight::times_spec(self, rhs)
    }
}

impl std::ops::Mul for BooleanWeight {
    type Output = BooleanWeight;

    /// The semiring product, as `times`.
    fn mul(self, rhs: BooleanWeight) -> (r: BooleanWeight)
        ensures
            r == BooleanWeight::times_spec(self, rhs),
    {
        self.times(&rhs)
    }
}

impl WeaklyDivisibleSemiring for BooleanWeight {
    open spec fn divide_spec(a: Self, b: Self) -> Self {
        a
    }

    fn divide(&self, rhs: &Self) -> (r: Result<Self, FstError>) {
        if rhs.value {
            Ok(BooleanWeight { value: self.value })
        } else {
            Err(FstError::DivisionByZero)
        }
    }

    proof fn lemma_divide(a: Self, b: Self) {
    }
}

impl WeaklyDivisibleSemiring for TropicalWeight {
    /// The difference `a - b`, or `0` when `b` exceeds `a`; `+inf` stays `+inf`.
    open spec fn divide_spec(a: Self, b: Self) -> Self {
        match (a.value, b.value) {
            (Some(x), Some(y)) => TropicalWeight { value: Some(if x >= y { (x - y) as u32 } else { 0u32 }) },
            _ => a,
        }
    }

    fn divide(&self, rhs: &Self) -> (r: Result<Self, FstError>) {
        match (self.value, rhs.value) {
            (_, None) => Err(FstError::DivisionByZero),
            (Some(x), Some(y)) => if x >= y {
                Ok(TropicalWeight { value: Some(x - y) })
            } else {
                Ok(TropicalWeight { value: Some(0) })
            },
            (None, Some(_)) => Ok(TropicalWeight { value: None }),
        }
    }

    proof fn lemma_divide(a: Self, b: Self) {
    }
}

/// The saturated value of a natural number: itself when it fits in a `u32`, else `+inf`.
pub open spec fn saturate(n: int) -> Option<u32> {
    if n <= u32::MAX {
        Some(n as u32)
    } else {
        None
    }
}

/// The tropical semiring over the naturals below `2^32` and `+inf` (`None`):
/// `plus` is the minimum, `times` the sum, which becomes `+inf` when it exceeds `u32::MAX`.
#[derive(Debug, PartialEq, Eq, Structural)]
pub struct TropicalWeight {
    pub value: Option<u32>,
}

impl TropicalWeight {
    /// A finite weight.
    pub fn new(value: u32) -> (r: Self)
        ensures
            r.value == Some(value),
    {
        TropicalWeight { value: Some(value) }
    }

    /// The infinite weight, which is the semiring's zero.
    pub fn infinity() -> (r: Self)
        ensures
            r.value == None::<u32>,
    {
        TropicalWeight { value: None }
    }

    /// The finite value, or `None` for `+inf`.
    pub fn value(&self) -> (r: Option<u32>)
        ensures
            r == self.value,
    {
        self.value
    }

    /// The star closure `one + a + a*a + ...`, which is `one` (zero cost) for naturals.
    pub fn closure(&self) -> (r: Self)
        ensures
            r.value == Some(0u32),
    {
        TropicalWeight { value: Some(0) }
    }
}

impl Clone for TropicalWeight {
    fn clone(&self) -> (r: Self)
        ensures
            r == *self,
    {
        TropicalWeight { value: self.value }
    }
}

impl Semiring for TropicalWeight {
    open spec fn zero_spec() -> Self {
        TropicalWeight { value: None }
    }

    open spec fn one_spec() -> Self {
        TropicalWeight { value: Some(0) }
    }

    open spec fn plus_spec(a: Self, b: Self) -> Self {
        match (a.value, b.value) {
            (None, _) => b,
            (_, None) => a,
            (Some(x), Some(y)) => if x <= y { a } else { b },
        }
    }

    open spec fn times_spec(a: Self, b: Self) -> Self {
        match (a.value, b.value) {
            (Some(x), Some(y)) => TropicalWeight { value: saturate(x + y) },
            _ => TropicalWeight { value: None },
        }
    }

    open spec fn reverse_spec(a: Self) -> Self {
        a
    }

    fn zero() -> (r: Self) {
        TropicalWeight { value: None }
    }

    fn one() -> (r: Self) {
        TropicalWeight { value: Some(0) }
    }

    fn plus(&self, rhs: &Self) -> (r: Self) {
        match (self.value, rhs.value) {
            (None, _) => TropicalWeight { value: rhs.value },
            (_, None) => TropicalWeight { value: self.value },
            (Some(x), Some(y)) => if x <= y {
                TropicalWeight { value: self.value }
            } else {
                TropicalWeight { value: rhs.value }
            },
        }
    }

    fn times(&self, rhs: &Self) -> (r: Self) {
        match (self.value, rhs.value) {
            (Some(x), Some(y)) => if x <= u32::MAX - y {
                TropicalWeight { value: Some(x + y) }
            } else {
                TropicalWeight { value: None }
            },
            _ => TropicalWeight { value: None },
        }
    }

    fn is_zero(&self) -> (r: bool) {
        self.value.is_none()
    }

    fn reverse(&self) -> (r: Self) {
        TropicalWeight { value: self.value }
    }

    fn duplicate(&self) -> (r: Self) {
        TropicalWeight { value: self.value }
    }

    fn equals(&self, rhs: &Self) -> (r: bool) {
        match (self.value, rhs.value) {
            (Some(x), Some(y)) => x == y,
            (None, None) => true,
            _ => false,
        }
    }

    proof fn lemma_plus_associative(a: Self, b: Self, c: Self) {
    }

    proof fn lemma_plus_commutative(a: Self, b: Self) {
    }

    proof fn lemma_plus_zero(a: Self) {
    }

    proof fn lemma_times_associative(a: Self, b: Self, c: Self) {
    }

    proof fn lemma_times_one(a: Self) {
    }

    proof fn lemma_times_zero(a: Self) {
    }

    proof fn lemma_distributive(a: Self, b: Self, c: Self) {
    }

    proof fn lemma_reverse_involutive(a: Self) {
    }

    proof fn lemma_reverse_homomorphism(a: Self, b: Self) {
    }
}

} // verus!
