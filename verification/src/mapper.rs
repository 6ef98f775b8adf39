//! Reflective boundary handling: which sample a kernel tap reads.

use vstd::prelude::*;

verus! {

/// Number of distinct values of the returned coordinate type.
pub open spec fn coordinate_modulus() -> int {
    0x1_0000_0000
}

/// The position a tap would read if the axis had no ends.
pub open spec fn raw_index(stride: int, tap_offset: int, coordinate: int) -> int {
    coordinate + tap_offset * stride
}

/// The position a tap reads after folding at both ends of the axis.
///
/// A position below zero is mirrored around zero. A position beyond
/// `extent - kernel_size / 2` is folded back from `extent` by the amount it
/// overshoots that limit. No second fold is applied, so for a kernel or a
/// stride that is large relative to `extent` the value may lie outside
/// `[0, extent)`, and may even be negative.
pub open spec fn reflected_index(
    stride: int,
    kernel_size: int,
    tap_offset: int,
    coordinate: int,
    extent: int,
) -> int {
    let half = kernel_size / 2;
    let index = raw_index(stride, tap_offset, coordinate);
    if index < 0 {
        -index
    } else if index > extent - half {
        extent - (index - extent + half)
    } else {
        index
    }
}

/// Offset of tap `tap` from the kernel center.
pub open spec fn tap_offset(kernel_size: int, tap: int) -> int {
    tap - kernel_size / 2
}

/// Every tap of every coordinate of an axis reads inside the axis.
pub open spec fn taps_stay_inside(stride: int, kernel_size: int, extent: int) -> bool {
    forall|coordinate: int, tap: int|
        0 <= coordinate < extent && 0 <= tap < kernel_size ==> 0 <= #[trigger] reflected_index(
            stride,
            kernel_size,
            tap_offset(kernel_size, tap),
            coordinate,
            extent,
        ) < extent
}

/// Closed form of `taps_stay_inside` for a non-empty axis and kernel.
///
/// The first tap of coordinate zero reaches furthest below the axis and is
/// mirrored to `half * stride`. The last tap of the last coordinate
/// overshoots the far limit by `last * stride + half - 1`, and is folded back
/// from `extent` by that amount.
pub open spec fn reach_fits(stride: int, kernel_size: int, extent: int) -> bool {
    let half = kernel_size / 2;
    let last = kernel_size - 1 - half;
    &&& half * stride < extent
    &&& last * stride + half - 1 <= extent
}

proof fn lemma_scaled_offset_bounds(offset: int, stride: int, low: int, high: int)
    requires
        low <= offset <= high,
        0 <= stride,
    ensures
        low * stride <= offset * stride <= high * stride,
{
    assert(low * stride <= offset * stride) by (nonlinear_arith)
        requires
            low <= offset,
            0 <= stride,
    ;
    assert(offset * stride <= high * stride) by (nonlinear_arith)
        requires
            offset <= high,
            0 <= stride,
    ;
}

/// The folded position of every tap lies inside the axis exactly when the
/// two extreme taps do.
pub proof fn lemma_taps_stay_inside_iff(stride: int, kernel_size: int, extent: int)
    requires
        0 <= stride,
        1 <= kernel_size,
        1 <= extent,
    ensures
        taps_stay_inside(stride, kernel_size, extent) <==> reach_fits(
            stride,
            kernel_size,
            extent,
        ),
{
    let half = kernel_size / 2;
    let last = kernel_size - 1 - half;
    if reach_fits(stride, kernel_size, extent) {
        assert forall|coordinate: int, tap: int|
            0 <= coordinate < extent && 0 <= tap < kernel_size implies 0 <= #[trigger] reflected_index(
                stride,
                kernel_size,
                tap_offset(kernel_size, tap),
                coordinate,
                extent,
            ) < extent by {
            let offset = tap_offset(kernel_size, tap);
            lemma_scaled_offset_bounds(offset, stride, -half, last);
            assert((-half) * stride == -(half * stride)) by (nonlinear_arith);
            if half == 0 {
                assert(offset == 0);
                assert(offset * stride == 0) by (nonlinear_arith)
                    requires
                        offset == 0,
                ;
            }
        }
    }
    if taps_stay_inside(stride, kernel_size, extent) {
        let first = reflected_index(stride, kernel_size, tap_offset(kernel_size, 0), 0, extent);
        assert(0 <= first < extent);
        assert((-half) * stride == -(half * stride)) by (nonlinear_arith);
        assert(0 <= half * stride) by (nonlinear_arith)
            requires
                0 <= half,
                0 <= stride,
        ;
        let far = reflected_index(
            stride,
            kernel_size,
            tap_offset(kernel_size, kernel_size - 1),
            extent - 1,
            extent,
        );
        assert(0 <= far < extent);
        assert(0 <= last * stride) by (nonlinear_arith)
            requires
                0 <= last,
                0 <= stride,
        ;
    }
}

/// Bounds of a product of a factor around zero and a non-negative factor.
pub(crate) proof fn lemma_product_bounds(a: int, b: int, a_low: int, a_high: int, b_high: int)
    requires
        a_low <= a <= a_high,
        a_low <= 0 <= a_high,
        0 <= b <= b_high,
    ensures
        a_low * b_high <= a * b <= a_high * b_high,
{
    assert(a * b <= a_high * b) by (nonlinear_arith)
        requires
            a <= a_high,
            0 <= b,
    ;
    assert(a_high * b <= a_high * b_high) by (nonlinear_arith)
        requires
            0 <= a_high,
            b <= b_high,
    ;
    assert(a_low * b <= a * b) by (nonlinear_arith)
        requires
            a_low <= a,
            0 <= b,
    ;
    assert(a_low * b_high <= a_low * b) by (nonlinear_arith)
        requires
            a_low <= 0,
            b <= b_high,
    ;
}

/// Decides whether every tap of every coordinate of an axis reads inside it.
pub fn stays_inside(stride: usize, kernel_size: usize, extent: usize) -> (inside: bool)
    ensures
        inside == taps_stay_inside(stride as int, kernel_size as int, extent as int),
{
    if kernel_size == 0 || extent == 0 {
        return true;
    }
    let half: u128 = (kernel_size / 2) as u128;
    let last: u128 = (kernel_size - 1) as u128 - half;
    let step: u128 = stride as u128;
    proof {
        lemma_taps_stay_inside_iff(stride as int, kernel_size as int, extent as int);
        lemma_product_bounds(half as int, step as int, 0, 0x8000_0000_0000_0000, 0xffff_ffff_ffff_ffff);
        lemma_product_bounds(last as int, step as int, 0, 0x8000_0000_0000_0000, 0xffff_ffff_ffff_ffff);
    }
    half * step < extent as u128 && last * step + half <= extent as u128 + 1
}

} // verus!
