use core::ops::{Add, Div, Mul};
use vstd::prelude::*;
use vstd::std_specs::cmp::{PartialOrdIs, PartialOrdSpec};
use vstd::std_specs::convert::FromSpec;
use vstd::std_specs::ops::{AddSpec, DivSpec, MulSpec};

verus! {

/// What the networks and their scores are made of: a copyable number type
/// with `+`, `*`, `/` and `<`, into which small whole numbers can be
/// converted.
pub trait Scalar: Copy + Add<Output = Self> + Mul<Output = Self> + Div<Output = Self> + PartialOrd + From<
    i8,
> + From<i16> {

}

impl<T> Scalar for T where
    T: Copy + Add<Output = T> + Mul<Output = T> + Div<Output = T> + PartialOrd + From<i8> + From<i16>,
 {

}

/// `+` on `T` accepts every pair of arguments.
pub open spec fn total_add<T: Add<Output = T>>() -> bool {
    forall|x: T, y: T| #[trigger] x.add_req(y)
}

/// `*` on `T` accepts every pair of arguments.
pub open spec fn total_mul<T: Mul<Output = T>>() -> bool {
    forall|x: T, y: T| #[trigger] x.mul_req(y)
}

/// `/` on `T` accepts every pair of arguments.
pub open spec fn total_div<T: Div<Output = T>>() -> bool {
    forall|x: T, y: T| #[trigger] x.div_req(y)
}

/// The arithmetic of `T` never refuses its arguments, as is the case for
/// number types that have values for overflow and for division by zero.
pub open spec fn total_arithmetic<T: Scalar>() -> bool {
    total_add::<T>() && total_mul::<T>() && total_div::<T>()
}

/// The arithmetic of `T` allows a computation: either it never refuses its
/// arguments, or it is exact and accepts each operation that the
/// computation takes, which is what `accepted` says.
pub open spec fn arithmetic_allows<T: Scalar>(accepted: bool) -> bool {
    total_arithmetic::<T>() || (exact_arithmetic::<T>() && accepted)
}

/// `+` on `T` allows a computation that only adds: either it never refuses
/// its arguments, or it is exact and accepts each sum that the computation
/// takes, which is what `accepted` says.
pub open spec fn addition_allows<T: Add<Output = T>>(accepted: bool) -> bool {
    total_add::<T>() || (T::obeys_add_spec() && accepted)
}

/// `<` and `>` on `T` answer as the specification of its ordering says.
pub open spec fn exact_order<T: PartialOrd>() -> bool {
    T::obeys_partial_cmp_spec()
}

/// Converting a small whole number into `T` gives what the specification of the
/// conversion says.
pub open spec fn exact_conversion<T: Scalar>() -> bool {
    <T as FromSpec<i8>>::obeys_from_spec() && <T as FromSpec<i16>>::obeys_from_spec()
}

/// Every operation of `T` that the library uses returns what its
/// specification function says, so that results can be stated exactly.
pub open spec fn exact_arithmetic<T: Scalar>() -> bool {
    &&& T::obeys_add_spec()
    &&& T::obeys_mul_spec()
    &&& T::obeys_div_spec()
    &&& exact_order::<T>()
    &&& exact_conversion::<T>()
}

/// The value of the whole number `n` in `T`.
pub open spec fn of_count<T: Scalar>(n: i8) -> T {
    <T as FromSpec<i8>>::from_spec(n)
}

/// `a > b` in the ordering of `T`.
pub open spec fn exceeds<T: PartialOrd>(a: T, b: T) -> bool {
    a.is_gt(&b)
}

/// `>` on `T` is a strict order: no two values are greater than each other,
/// and a value that is greater than one that is greater than a third is
/// greater than the third.
pub open spec fn strict_order<T: PartialOrd>() -> bool {
    &&& forall|a: T, b: T| #[trigger] exceeds(a, b) ==> !exceeds(b, a)
    &&& forall|a: T, b: T, c: T| #[trigger] exceeds(a, b) && #[trigger] exceeds(b, c) ==> exceeds(a, c)
}

/// `a >= b` in the ordering of `T`.
pub open spec fn at_least<T: PartialOrd>(a: T, b: T) -> bool {
    a.is_ge(&b)
}

/// `x` has a place in the ordering of `T`: it compares with itself, which
/// what is not a number does not.
pub open spec fn comparable<T: PartialOrd>(x: T) -> bool {
    x.is_ge(&x)
}

/// `a < b` in the ordering of `T`.
pub open spec fn precedes<T: PartialOrd>(a: T, b: T) -> bool {
    a.is_lt(&b)
}

/// `x` lies above the least value that `T` can hold, where it can hold
/// one: `x` is zero or more, or it is negative and its half is greater than
/// it. Of floating-point numbers this leaves out negative infinity, whose
/// half is itself, and what is not a number, which compares with nothing;
/// of integers it leaves out none.
pub open spec fn above_floor<T: Scalar>(x: T) -> bool {
    at_least(x, of_count::<T>(0)) || (precedes(x, of_count::<T>(0)) && exceeds(
        x.div_spec(of_count::<T>(2)),
        x,
    ))
}

/// `T` accepts the division that `above_floor(x)` may take.
pub open spec fn floor_defined<T: Scalar>(x: T) -> bool {
    at_least(x, of_count::<T>(0)) || !precedes(x, of_count::<T>(0)) || x.div_req(of_count::<T>(2))
}

/// Every 64-bit integer lies above the floor, and the test for it divides
/// by two, which the integers accept.
pub proof fn lemma_integers_above_floor(x: i64)
    ensures
        floor_defined(x),
        above_floor(x),
{
    if x < 0 {
        assert(x.div_spec(2i64) > x);
    }
}

/// Whether `x` lies above the least value that `T` can hold.
pub fn is_above_floor<T: Scalar>(x: T) -> (above: bool)
    requires
        arithmetic_allows::<T>(floor_defined(x)),
    ensures
        exact_arithmetic::<T>() ==> above == above_floor(x),
{
    let zero: T = T::from(0i8);
    if x >= zero {
        true
    } else if x < zero {
        let two: T = T::from(2i8);
        x / two > x
    } else {
        false
    }
}

} // verus!
