//! The one-dimensional tap weights shared by both passes of a separable filter.

use vstd::prelude::*;

verus! {

/// A fixed-length sequence of tap weights.
///
/// The tap at position `SIZE / 2` is the kernel center.
#[derive(Copy, Clone)]
pub struct SeparableKernel<T, const SIZE: usize> {
    values: [T; SIZE],
}

impl<T, const SIZE: usize> View for SeparableKernel<T, SIZE> {
    type V = Seq<T>;

    closed spec fn view(&self) -> Seq<T> {
        self.values@
    }
}

impl<T: Copy, const SIZE: usize> SeparableKernel<T, SIZE> {
    /// Wraps the given weights, first tap first.
    pub fn new(values: [T; SIZE]) -> (kernel: Self)
        ensures
            kernel@ == values@,
            kernel@.len() == SIZE,
    {
        Self { values }
    }

    /// The weights, first tap first.
    pub fn values(&self) -> (values: [T; SIZE])
        ensures
            values@ == self@,
    {
        self.values
    }
}

} // verus!
