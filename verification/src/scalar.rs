use vstd::prelude::*;

verus! {

/// A number that a matrix can hold.
///
/// Each operation comes in two forms: the executable method, and a ghost
/// function that names what the method returns. Contracts of the matrix
/// routines are written over the ghost functions, so they say which value
/// comes out, operation by operation and in which order.
///
/// An arithmetic operation returns `None` where the type has no value for
/// the result, as after an overflow or a division by zero.
///
/// An implementation inside this crate is verified against the contracts
/// below. One written elsewhere, in code that is not verified, has to be
/// held to them by its author: what the matrix routines promise rests on
/// each method returning what its ghost function names.
pub trait Scalar: Copy {
    /// The additive neutral element.
    spec fn zero_spec() -> Self;

    /// The multiplicative neutral element.
    spec fn one_spec() -> Self;

    /// `self + rhs`.
    spec fn add_spec(self, rhs: Self) -> Option<Self>;

    /// `self - rhs`.
    spec fn sub_spec(self, rhs: Self) -> Option<Self>;

    /// `self * rhs`.
    spec fn mul_spec(self, rhs: Self) -> Option<Self>;

    /// `self / rhs`.
    spec fn div_spec(self, rhs: Self) -> Option<Self>;

    /// Whether `self` is exactly zero.
    spec fn is_zero_spec(self) -> bool;

    /// Whether `self` is strictly greater than `rhs`.
    spec fn gt_spec(self, rhs: Self) -> bool;

    /// Whether `self` and `rhs` differ by no more than the tolerance of the
    /// type.
    spec fn close_spec(self, rhs: Self) -> bool;

    /// The zero of the type passes the test for zero.
    proof fn zero_is_zero()
        ensures
            Self::zero_spec().is_zero_spec(),
    ;

    /// The additive neutral element.
    fn zero() -> (r: Self)
        ensures
            r == Self::zero_spec(),
    ;

    /// The multiplicative neutral element.
    fn one() -> (r: Self)
        ensures
            r == Self::one_spec(),
    ;

    /// `self + rhs`, where the type has a value for it.
    fn add(self, rhs: Self) -> (r: Option<Self>)
        ensures
            r == self.add_spec(rhs),
    ;

    /// `self - rhs`, where the type has a value for it.
    fn sub(self, rhs: Self) -> (r: Option<Self>)
        ensures
            r == self.sub_spec(rhs),
    ;

    /// `self * rhs`, where the type has a value for it.
    fn mul(self, rhs: Self) -> (r: Option<Self>)
        ensures
            r == self.mul_spec(rhs),
    ;

    /// `self / rhs`, where the type has a value for it.
    fn div(self, rhs: Self) -> (r: Option<Self>)
        ensures
            r == self.div_spec(rhs),
    ;

    /// Whether `self` is exactly zero.
    fn is_zero(self) -> (r: bool)
        ensures
            r == self.is_zero_spec(),
    ;

    /// Whether `self` is strictly greater than `rhs`.
    fn gt(self, rhs: Self) -> (r: bool)
        ensures
            r == self.gt_spec(rhs),
    ;

    /// Whether `self` and `rhs` differ by no more than the tolerance of the
    /// type.
    fn close_to(self, rhs: Self) -> (r: bool)
        ensures
            r == self.close_spec(rhs),
    ;
}

/// The tolerance within which two exact scalars count as close: one
/// thousandth.
pub open spec fn tolerance() -> real {
    1real / 1000real
}

/// A scalar whose operations are those of the real numbers: whenever an
/// operation has a result, it is the exact one.
pub trait Exact: Scalar {
    /// The real number that `self` stands for.
    spec fn val(self) -> real;

    /// Zero stands for zero.
    proof fn zero_exact()
        ensures
            Self::zero_spec().val() == 0real,
    ;

    /// One stands for one.
    proof fn one_exact()
        ensures
            Self::one_spec().val() == 1real,
    ;

    /// A sum that has a value stands for the sum.
    proof fn add_exact(a: Self, b: Self)
        ensures
            a.add_spec(b) matches Some(c) ==> c.val() == a.val() + b.val(),
    ;

    /// A difference that has a value stands for the difference.
    proof fn sub_exact(a: Self, b: Self)
        ensures
            a.sub_spec(b) matches Some(c) ==> c.val() == a.val() - b.val(),
    ;

    /// A product that has a value stands for the product.
    proof fn mul_exact(a: Self, b: Self)
        ensures
            a.mul_spec(b) matches Some(c) ==> c.val() == a.val() * b.val(),
    ;

    /// A quotient has a value only where the divisor is not zero, and then
    /// stands for the quotient.
    proof fn div_exact(a: Self, b: Self)
        ensures
            a.div_spec(b) matches Some(c) ==> b.val() != 0real && c.val() * b.val() == a.val(),
    ;

    /// The test for zero holds of what stands for zero, and of nothing else.
    proof fn is_zero_exact(a: Self)
        ensures
            a.is_zero_spec() <==> a.val() == 0real,
    ;

    /// The comparison is that of the real numbers.
    proof fn gt_exact(a: Self, b: Self)
        ensures
            a.gt_spec(b) <==> a.val() > b.val(),
    ;

    /// Two scalars are close where the real numbers differ by no more than
    /// the tolerance, and only there.
    proof fn close_exact(a: Self, b: Self)
        ensures
            a.close_spec(b) <==> -tolerance() <= a.val() - b.val() <= tolerance(),
    ;
}

/// `a + b` where both are there.
pub open spec fn opt_add<T: Scalar>(a: Option<T>, b: Option<T>) -> Option<T> {
    match (a, b) {
        (Some(x), Some(y)) => x.add_spec(y),
        _ => None,
    }
}

/// `a - b` where both are there.
pub open spec fn opt_sub<T: Scalar>(a: Option<T>, b: Option<T>) -> Option<T> {
    match (a, b) {
        (Some(x), Some(y)) => x.sub_spec(y),
        _ => None,
    }
}

/// `a * b` where both are there.
pub open spec fn opt_mul<T: Scalar>(a: Option<T>, b: Option<T>) -> Option<T> {
    match (a, b) {
        (Some(x), Some(y)) => x.mul_spec(y),
        _ => None,
    }
}

/// `a / b` where both are there.
pub open spec fn opt_div<T: Scalar>(a: Option<T>, b: Option<T>) -> Option<T> {
    match (a, b) {
        (Some(x), Some(y)) => x.div_spec(y),
        _ => None,
    }
}

} // verus!
