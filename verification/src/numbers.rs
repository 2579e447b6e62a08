//! The arithmetic in which scores and probabilities are computed.

use vstd::prelude::*;

verus! {

/// The numbers that scores and probabilities are made of.
///
/// Nothing is asked of an operation: it may round, and it may give different results for the same
/// operands. What the scheduler computes is stated over the results that the operations give.
pub trait Number: Copy {
    /// The number nearest to an integer.
    fn of_integer(n: u128) -> Self;

    /// `self + other`.
    fn plus(self, other: Self) -> Self;

    /// `self - other`.
    fn minus(self, other: Self) -> Self;

    /// `self * other`.
    fn times(self, other: Self) -> Self;

    /// `self / other`.
    fn over(self, other: Self) -> Self;

    /// `self` raised to an integer power.
    fn to_the(self, exponent: i32) -> Self;

    /// `self < other`.
    fn is_less(self, other: Self) -> bool;

    /// `self >= other`.
    fn is_at_least(self, other: Self) -> bool;
}

/// Each operation gives one result for the same operands.
pub open spec fn functional<W: Number>() -> bool {
    &&& forall|n: u128, r: W, t: W| #[trigger]
        call_ensures(W::of_integer, (n,), r) && #[trigger] call_ensures(W::of_integer, (n,), t)
            ==> r == t
    &&& forall|a: W, b: W, r: W, t: W| #[trigger]
        call_ensures(W::plus, (a, b), r) && #[trigger] call_ensures(W::plus, (a, b), t) ==> r == t
    &&& forall|a: W, b: W, r: W, t: W| #[trigger]
        call_ensures(W::minus, (a, b), r) && #[trigger] call_ensures(W::minus, (a, b), t) ==> r
            == t
    &&& forall|a: W, b: W, r: W, t: W| #[trigger]
        call_ensures(W::times, (a, b), r) && #[trigger] call_ensures(W::times, (a, b), t) ==> r
            == t
    &&& forall|a: W, b: W, r: W, t: W| #[trigger]
        call_ensures(W::over, (a, b), r) && #[trigger] call_ensures(W::over, (a, b), t) ==> r == t
    &&& forall|a: W, e: i32, r: W, t: W| #[trigger]
        call_ensures(W::to_the, (a, e), r) && #[trigger] call_ensures(W::to_the, (a, e), t) ==> r
            == t
    &&& forall|a: W, b: W, r: bool, t: bool| #[trigger]
        call_ensures(W::is_less, (a, b), r) && #[trigger] call_ensures(W::is_less, (a, b), t)
            ==> r == t
    &&& forall|a: W, b: W, r: bool, t: bool| #[trigger]
        call_ensures(W::is_at_least, (a, b), r) && #[trigger] call_ensures(
            W::is_at_least,
            (a, b),
            t,
        ) ==> r == t
}

/// The `n`-th power of a real number.
pub open spec fn real_power(base: real, n: nat) -> real
    decreases n,
{
    if n == 0 {
        1real
    } else {
        base * real_power(base, (n - 1) as nat)
    }
}

/// No operation rounds: a result that stands for a real number, as `value` gives it, is the exact
/// one, and its operands stand for real numbers too.
///
/// A result need not stand for a real number: the exact one may be more than a `W` can hold.
pub open spec fn exact<W: Number>(value: spec_fn(W) -> Option<real>) -> bool {
    &&& forall|n: u128, r: W| #[trigger]
        call_ensures(W::of_integer, (n,), r) && value(r) is Some ==> value(r) == Some(n as real)
    &&& forall|a: W, b: W, r: W| #[trigger]
        call_ensures(W::plus, (a, b), r) && value(r) is Some ==> {
            &&& value(a) is Some && value(b) is Some
            &&& value(r)->0 == value(a)->0 + value(b)->0
        }
    &&& forall|a: W, b: W, r: W| #[trigger]
        call_ensures(W::minus, (a, b), r) && value(r) is Some ==> {
            &&& value(a) is Some && value(b) is Some
            &&& value(r)->0 == value(a)->0 - value(b)->0
        }
    &&& forall|a: W, b: W, r: W| #[trigger]
        call_ensures(W::times, (a, b), r) && value(r) is Some ==> {
            &&& value(a) is Some && value(b) is Some
            &&& value(r)->0 == value(a)->0 * value(b)->0
        }
    &&& forall|a: W, b: W, r: W| #[trigger]
        call_ensures(W::over, (a, b), r) && value(r) is Some ==> {
            &&& value(a) is Some && value(b) is Some
            &&& value(b)->0 != 0real
            &&& value(r)->0 == value(a)->0 / value(b)->0
        }
    &&& forall|a: W, e: i32, r: W| #[trigger]
        call_ensures(W::to_the, (a, e), r) && 0 <= e && value(r) is Some ==> {
            &&& value(a) is Some
            &&& value(r)->0 == real_power(value(a)->0, e as nat)
        }
    &&& forall|a: W, b: W, r: bool| #[trigger]
        call_ensures(W::is_less, (a, b), r) && value(a) is Some && value(b) is Some ==> r == (
        value(a)->0 < value(b)->0)
    &&& forall|a: W, b: W, r: bool| #[trigger]
        call_ensures(W::is_at_least, (a, b), r) && value(a) is Some && value(b) is Some ==> r == (
        value(a)->0 >= value(b)->0)
}

} // verus!
