//! The arithmetic of a sample type, as the caller supplies it.

use vstd::prelude::*;

verus! {

/// The arithmetic of a sample type: its zero and its one, the four basic
/// operations, and its order.
///
/// The filters are written against this table and never look inside a
/// sample. What they promise is stated over the postconditions of the five
/// functions held here.
pub struct Arithmetic<T, A, S, M, D, L> {
    /// The sample value zero.
    pub zero: T,
    /// The sample value one.
    pub one: T,
    /// `sum(a, b)` is `a + b`.
    pub sum: A,
    /// `difference(a, b)` is `a - b`.
    pub difference: S,
    /// `product(a, b)` is `a * b`.
    pub product: M,
    /// `quotient(a, b)` is `a / b`.
    pub quotient: D,
    /// `below(a, b)` tells whether `a < b`.
    pub below: L,
}

impl<
    T,
    A: Fn(T, T) -> T,
    S: Fn(T, T) -> T,
    M: Fn(T, T) -> T,
    D: Fn(T, T) -> T,
    L: Fn(T, T) -> bool,
> Arithmetic<T, A, S, M, D, L> {
    /// Every operation accepts every pair of samples.
    pub open spec fn total(&self) -> bool {
        &&& forall|a: T, b: T| self.sum.requires((a, b))
        &&& forall|a: T, b: T| self.difference.requires((a, b))
        &&& forall|a: T, b: T| self.product.requires((a, b))
        &&& forall|a: T, b: T| self.quotient.requires((a, b))
        &&& forall|a: T, b: T| self.below.requires((a, b))
    }

    /// No operation has two outcomes for one pair of samples.
    pub open spec fn deterministic(&self) -> bool {
        &&& forall|a: T, b: T, one: T, other: T|
            #[trigger] self.sum.ensures((a, b), one) && #[trigger] self.sum.ensures((a, b), other)
                ==> one == other
        &&& forall|a: T, b: T, one: T, other: T|
            #[trigger] self.difference.ensures((a, b), one) && #[trigger] self.difference.ensures(
                (a, b),
                other,
            ) ==> one == other
        &&& forall|a: T, b: T, one: T, other: T|
            #[trigger] self.product.ensures((a, b), one) && #[trigger] self.product.ensures(
                (a, b),
                other,
            ) ==> one == other
        &&& forall|a: T, b: T, one: T, other: T|
            #[trigger] self.quotient.ensures((a, b), one) && #[trigger] self.quotient.ensures(
                (a, b),
                other,
            ) ==> one == other
        &&& forall|a: T, b: T, one: bool, other: bool|
            #[trigger] self.below.ensures((a, b), one) && #[trigger] self.below.ensures(
                (a, b),
                other,
            ) ==> one == other
    }

    /// `result` is a possible value of `partial + sample * weight`.
    pub open spec fn accumulated(&self, partial: T, sample: T, weight: T, result: T) -> bool {
        exists|scaled: T| #[trigger]
            self.product.ensures((sample, weight), scaled) && self.sum.ensures(
                (partial, scaled),
                result,
            )
    }

    /// The relation `accumulated`, as a value.
    pub open spec fn accumulation(&self) -> spec_fn(T, T, T, T) -> bool {
        |partial: T, sample: T, weight: T, result: T|
            self.accumulated(partial, sample, weight, result)
    }

    /// `verdict` is a possible answer to whether `a < b`.
    pub open spec fn answered(&self, a: T, b: T, verdict: bool) -> bool {
        self.below.ensures((a, b), verdict)
    }

    /// The relation `answered`, as a value.
    pub open spec fn comparison(&self) -> spec_fn(T, T, bool) -> bool {
        |a: T, b: T, verdict: bool| self.answered(a, b, verdict)
    }

    /// `wide` is a possible answer to whether `min` and `max` differ: whether
    /// one of them is below the other.
    pub open spec fn spans(&self, min: T, max: T, wide: bool) -> bool {
        exists|forward: bool| #[trigger]
            self.below.ensures((min, max), forward) && (if forward {
                wide
            } else {
                self.below.ensures((max, min), wide)
            })
    }

    /// `result` is a possible value of
    /// `lower + (value - min) * (upper - lower) / (max - min)`.
    pub open spec fn affine(
        &self,
        min: T,
        max: T,
        value: T,
        lower: T,
        upper: T,
        result: T,
    ) -> bool {
        exists|span: T| #[trigger]
            self.difference.ensures((upper, lower), span) && exists|offset: T| #[trigger]
                self.difference.ensures((value, min), offset) && exists|scaled: T| #[trigger]
                    self.product.ensures((offset, span), scaled) && exists|width: T| #[trigger]
                        self.difference.ensures((max, min), width) && exists|ratio: T| #[trigger]
                            self.quotient.ensures((scaled, width), ratio) && self.sum.ensures(
                                (lower, ratio),
                                result,
                            )
    }
}

impl<
    T: Copy,
    A: Fn(T, T) -> T,
    S: Fn(T, T) -> T,
    M: Fn(T, T) -> T,
    D: Fn(T, T) -> T,
    L: Fn(T, T) -> bool,
> Arithmetic<T, A, S, M, D, L> {
    /// Adds the weighted sample to a partial sum: `partial + sample * weight`.
    pub fn accumulate(&self, partial: T, sample: T, weight: T) -> (result: T)
        requires
            self.total(),
        ensures
            self.accumulated(partial, sample, weight, result),
    {
        let scaled: T = (self.product)(sample, weight);
        (self.sum)(partial, scaled)
    }

    /// Whether `min` and `max` differ: whether one of them is below the other.
    pub fn differ(&self, min: T, max: T) -> (wide: bool)
        requires
            self.total(),
        ensures
            self.spans(min, max, wide),
    {
        if (self.below)(min, max) {
            true
        } else {
            (self.below)(max, min)
        }
    }

    /// The image of `value` under the affine map that sends `min` to `lower`
    /// and `max` to `upper`: `lower + (value - min) * (upper - lower) / (max - min)`.
    pub fn interpolate(&self, min: T, max: T, value: T, lower: T, upper: T) -> (result: T)
        requires
            self.total(),
        ensures
            self.affine(min, max, value, lower, upper, result),
    {
        let span: T = (self.difference)(upper, lower);
        let offset: T = (self.difference)(value, min);
        let scaled: T = (self.product)(offset, span);
        let width: T = (self.difference)(max, min);
        let ratio: T = (self.quotient)(scaled, width);
        (self.sum)(lower, ratio)
    }
}

} // verus!
