//! Two-pass separable filtering of a sample grid, in place.

use crate::arithmetic::Arithmetic;
use crate::buffer::{
    lemma_grids_equal, lemma_offset_in_range, lemma_offset_injective, Buffer, Grid,
};
use crate::iter::{lemma_coordinate_in_grid, lemma_rank_in_traversal, rank_of, ImageIterator};
use crate::kernel::SeparableKernel;
use crate::mapper::{
    coordinate_modulus, lemma_product_bounds, raw_index, reflected_index, stays_inside,
    tap_offset, taps_stay_inside,
};
use vstd::prelude::*;

verus! {

/// The axis along which a pass filters.
#[derive(Clone, Copy)]
pub enum Axis {
    /// Along each row: taps differ in `x`.
    Horizontal,
    /// Along each column: taps differ in `y`.
    Vertical,
}

impl Axis {
    /// The coordinate of `(x, y)` along this axis.
    pub open spec fn coordinate(self, x: int, y: int) -> int {
        match self {
            Axis::Horizontal => x,
            Axis::Vertical => y,
        }
    }

    /// The number of samples of a line of `grid` along this axis.
    pub open spec fn extent<T>(self, grid: Grid<T>) -> int {
        match self {
            Axis::Horizontal => grid.width as int,
            Axis::Vertical => grid.height as int,
        }
    }

    /// The pixel of the line through `(x, y)` that lies at `position` along
    /// this axis.
    pub open spec fn place(self, x: int, y: int, position: int) -> (int, int) {
        match self {
            Axis::Horizontal => (position, y),
            Axis::Vertical => (x, position),
        }
    }
}

/// What a pass is made with: the kernel's weights, the spacing of its taps,
/// and the arithmetic, given by its zero and by the relation `step`, where
/// `step(partial, sample, weight, sum)` says that `sum` is a possible value
/// of `partial + sample * weight`.
#[verifier::reject_recursive_types(T)]
pub struct Filter<T> {
    pub step: spec_fn(T, T, T, T) -> bool,
    pub zero: T,
    pub weights: Seq<T>,
    pub stride: int,
}

impl<T> Filter<T> {
    /// Number of taps.
    pub open spec fn size(self) -> int {
        self.weights.len() as int
    }
}

/// Where tap `tap` of the cell `(x, y)` reads along `axis`.
pub open spec fn tap_source<T>(
    axis: Axis,
    stride: int,
    kernel_size: int,
    grid: Grid<T>,
    x: int,
    y: int,
    tap: int,
) -> int {
    reflected_index(
        stride,
        kernel_size,
        tap_offset(kernel_size, tap),
        axis.coordinate(x, y),
        axis.extent(grid),
    )
}

/// The sample that tap `tap` of the cell `(x, y, c)` reads during a pass.
///
/// A pass works in place and moves along each line in ascending order. A tap
/// that reads behind the cell therefore sees the value the pass has already
/// written there; a tap that reads the cell itself or ahead of it sees the
/// value from before the pass.
pub open spec fn tap_sample<T>(
    axis: Axis,
    stride: int,
    kernel_size: int,
    before: Grid<T>,
    after: Grid<T>,
    x: int,
    y: int,
    c: int,
    tap: int,
) -> T {
    let source = tap_source(axis, stride, kernel_size, before, x, y, tap);
    let (sx, sy) = axis.place(x, y, source);
    if source < axis.coordinate(x, y) {
        after.at(sx, sy, c)
    } else {
        before.at(sx, sy, c)
    }
}

/// The samples read by the taps of the cell `(x, y, c)`, first tap first.
pub open spec fn tap_samples<T>(
    axis: Axis,
    stride: int,
    kernel_size: nat,
    before: Grid<T>,
    after: Grid<T>,
    x: int,
    y: int,
    c: int,
) -> Seq<T> {
    Seq::new(
        kernel_size,
        |tap: int| tap_sample(axis, stride, kernel_size as int, before, after, x, y, c, tap),
    )
}

/// `sum` is a possible outcome of accumulating the first `count` samples
/// with their weights, one pair at a time, starting from `zero`.
pub open spec fn accumulates<T>(
    step: spec_fn(T, T, T, T) -> bool,
    zero: T,
    samples: Seq<T>,
    weights: Seq<T>,
    count: nat,
    sum: T,
) -> bool
    decreases count,
{
    if count == 0 {
        sum == zero
    } else {
        exists|partial: T|
            accumulates(step, zero, samples, weights, (count - 1) as nat, partial)
                && #[trigger] step(partial, samples[count - 1], weights[count - 1], sum)
    }
}

/// Accumulating one more pair extends an accumulation by one step.
pub proof fn lemma_accumulates_step<T>(
    step: spec_fn(T, T, T, T) -> bool,
    zero: T,
    samples: Seq<T>,
    weights: Seq<T>,
    count: nat,
    partial: T,
    sum: T,
)
    requires
        accumulates(step, zero, samples, weights, count, partial),
        step(partial, samples[count as int], weights[count as int], sum),
    ensures
        accumulates(step, zero, samples, weights, count + 1, sum),
{
    let next = count + 1;
    assert(accumulates(step, zero, samples, weights, (next - 1) as nat, partial));
    assert(step(partial, samples[next - 1], weights[next - 1], sum));
}

/// The cell `(x, y, c)` of `after` holds an outcome of accumulating its taps.
pub open spec fn settled<T>(
    axis: Axis,
    filter: Filter<T>,
    before: Grid<T>,
    after: Grid<T>,
    x: int,
    y: int,
    c: int,
) -> bool {
    accumulates(
        filter.step,
        filter.zero,
        tap_samples(axis, filter.stride, filter.weights.len(), before, after, x, y, c),
        filter.weights,
        filter.weights.len(),
        after.at(x, y, c),
    )
}

/// `after` is an outcome of one in-place pass over `before` along `axis`.
pub open spec fn swept<T>(axis: Axis, filter: Filter<T>, before: Grid<T>, after: Grid<T>) -> bool {
    &&& before.same_shape(after)
    &&& forall|x: int, y: int, c: int|
        before.contains(x, y, c) ==> #[trigger] settled(axis, filter, before, after, x, y, c)
}

/// `after` is an outcome of a horizontal pass over `before` followed by a
/// vertical pass over its result.
pub open spec fn convolved<T>(filter: Filter<T>, before: Grid<T>, after: Grid<T>) -> bool {
    exists|between: Grid<T>|
        #![trigger swept(Axis::Horizontal, filter, before, between)]
        swept(Axis::Horizontal, filter, before, between) && swept(
            Axis::Vertical,
            filter,
            between,
            after,
        )
}

/// `filter` has a single weight, and accumulating any sample of `grid` with
/// it can only give the sample back: `zero + sample * weight` is `sample`.
pub open spec fn hands_through<T>(filter: Filter<T>, grid: Grid<T>) -> bool {
    &&& filter.weights.len() == 1
    &&& forall|i: int, sum: T|
        0 <= i < grid.samples.len() && #[trigger] (filter.step)(
            filter.zero,
            grid.samples[i],
            filter.weights[0],
            sum,
        ) ==> sum == grid.samples[i]
}

/// Every sample of `grid` is `value`.
pub open spec fn uniform<T>(grid: Grid<T>, value: T) -> bool {
    forall|i: int| 0 <= i < grid.samples.len() ==> grid.samples[i] == value
}

/// The sequence that holds `value` `count` times.
pub open spec fn constant<T>(count: nat, value: T) -> Seq<T> {
    Seq::new(count, |i: int| value)
}

/// The weights of `filter` add up to one, as far as `value` can tell:
/// accumulating `value` with each weight in turn can only give `value`.
pub open spec fn preserves<T>(filter: Filter<T>, value: T) -> bool {
    forall|sum: T|
        accumulates(
            filter.step,
            filter.zero,
            constant(filter.weights.len(), value),
            filter.weights,
            filter.weights.len(),
            sum,
        ) ==> sum == value
}

/// The taps of both axes read inside the grid, unless the grid has no sample.
pub open spec fn taps_fit<T>(stride: int, kernel_size: int, grid: Grid<T>) -> bool {
    grid.samples.len() > 0 ==> taps_stay_inside(stride, kernel_size, grid.width as int)
        && taps_stay_inside(stride, kernel_size, grid.height as int)
}

/// Whether a pass that is about to write channel `channel` of the pixel of
/// rank `rank` has already written the cell `(x, y, c)`.
pub open spec fn written(height: int, rank: int, channel: int, x: int, y: int, c: int) -> bool {
    rank_of(height, x, y) < rank || (rank_of(height, x, y) == rank && c < channel)
}

/// State of a pass that is about to write channel `channel` of the pixel of
/// rank `rank`: the cells written so far are settled, the others untouched.
pub open spec fn in_progress<T>(
    axis: Axis,
    filter: Filter<T>,
    before: Grid<T>,
    current: Grid<T>,
    rank: int,
    channel: int,
) -> bool {
    &&& before.wf()
    &&& before.same_shape(current)
    &&& forall|x: int, y: int, c: int|
        before.contains(x, y, c) && written(before.height as int, rank, channel, x, y, c)
            ==> #[trigger] settled(axis, filter, before, current, x, y, c)
    &&& forall|x: int, y: int, c: int|
        before.contains(x, y, c) && !written(before.height as int, rank, channel, x, y, c)
            ==> #[trigger] current.at(x, y, c) == before.at(x, y, c)
}

/// A tap of a cell of the grid reads a cell of the grid, in the same line
/// and channel; a tap that reads behind the cell reads a pixel of lower rank,
/// one that reads ahead a pixel of higher rank.
proof fn lemma_tap_reads_cell<T>(
    axis: Axis,
    stride: int,
    kernel_size: int,
    grid: Grid<T>,
    x: int,
    y: int,
    c: int,
    tap: int,
)
    requires
        grid.contains(x, y, c),
        taps_stay_inside(stride, kernel_size, axis.extent(grid)),
        0 <= tap < kernel_size,
    ensures
        ({
            let source = tap_source(axis, stride, kernel_size, grid, x, y, tap);
            let (sx, sy) = axis.place(x, y, source);
            let height = grid.height as int;
            &&& 0 <= source < axis.extent(grid)
            &&& grid.contains(sx, sy, c)
            &&& source < axis.coordinate(x, y) ==> rank_of(height, sx, sy) < rank_of(height, x, y)
            &&& source > axis.coordinate(x, y) ==> rank_of(height, sx, sy) > rank_of(height, x, y)
            &&& source == axis.coordinate(x, y) ==> sx == x && sy == y
        }),
{
    let source = tap_source(axis, stride, kernel_size, grid, x, y, tap);
    let height = grid.height as int;
    assert(0 <= source < axis.extent(grid));
    match axis {
        Axis::Horizontal => {
            if source < x {
                assert(source * height < x * height) by (nonlinear_arith)
                    requires
                        source < x,
                        0 < height,
                ;
            }
            if source > x {
                assert(source * height > x * height) by (nonlinear_arith)
                    requires
                        source > x,
                        0 < height,
                ;
            }
        },
        Axis::Vertical => {},
    }
}

/// Two pixels of one rank are the same pixel.
proof fn lemma_rank_injective(height: int, x1: int, y1: int, x2: int, y2: int)
    requires
        0 <= y1 < height,
        0 <= y2 < height,
        rank_of(height, x1, y1) == rank_of(height, x2, y2),
    ensures
        x1 == x2,
        y1 == y2,
{
    assert(x1 == x2) by (nonlinear_arith)
        requires
            x1 * height + y1 == x2 * height + y2,
            0 <= y1 < height,
            0 <= y2 < height,
    ;
}

/// Writing one cell leaves every other cell as it was.
proof fn lemma_other_cell_kept<T>(
    current: Grid<T>,
    next: Grid<T>,
    x: int,
    y: int,
    c: int,
    sample: T,
    ox: int,
    oy: int,
    oc: int,
)
    requires
        current.wf(),
        current.contains(x, y, c),
        current.contains(ox, oy, oc),
        next == (Grid { samples: current.samples.update(current.offset(x, y, c), sample), ..current }),
        !(ox == x && oy == y && oc == c),
    ensures
        next.at(ox, oy, oc) == current.at(ox, oy, oc),
{
    lemma_offset_in_range(current, x, y, c);
    lemma_offset_in_range(current, ox, oy, oc);
    if current.offset(x, y, c) == current.offset(ox, oy, oc) {
        lemma_offset_injective(current, x, y, c, ox, oy, oc);
    }
}

/// Writing a cell that is not yet written leaves the taps of every written
/// cell, and of the cell itself, reading what they read before.
proof fn lemma_taps_kept<T>(
    axis: Axis,
    stride: int,
    kernel_size: nat,
    before: Grid<T>,
    current: Grid<T>,
    next: Grid<T>,
    x: int,
    y: int,
    c: int,
    sample: T,
    ox: int,
    oy: int,
    oc: int,
)
    requires
        before.wf(),
        before.same_shape(current),
        before.contains(x, y, c),
        before.contains(ox, oy, oc),
        taps_stay_inside(stride, kernel_size as int, axis.extent(before)),
        next == (Grid { samples: current.samples.update(current.offset(x, y, c), sample), ..current }),
        rank_of(before.height as int, ox, oy) <= rank_of(before.height as int, x, y),
    ensures
        tap_samples(axis, stride, kernel_size, before, next, ox, oy, oc) == tap_samples(
            axis,
            stride,
            kernel_size,
            before,
            current,
            ox,
            oy,
            oc,
        ),
{
    let kept = tap_samples(axis, stride, kernel_size, before, current, ox, oy, oc);
    let seen = tap_samples(axis, stride, kernel_size, before, next, ox, oy, oc);
    assert forall|tap: int| 0 <= tap < kernel_size implies seen[tap] == kept[tap] by {
        lemma_tap_reads_cell(axis, stride, kernel_size as int, before, ox, oy, oc, tap);
        let source = tap_source(axis, stride, kernel_size as int, before, ox, oy, tap);
        let (sx, sy) = axis.place(ox, oy, source);
        if source < axis.coordinate(ox, oy) {
            lemma_other_cell_kept(current, next, x, y, c, sample, sx, sy, oc);
        }
    }
    assert(seen =~= kept);
}

/// Nothing is written before a pass starts.
proof fn lemma_pass_starts<T>(axis: Axis, filter: Filter<T>, before: Grid<T>)
    requires
        before.wf(),
    ensures
        in_progress(axis, filter, before, before, 0, 0),
{
    assert forall|x: int, y: int, c: int| before.contains(x, y, c) implies !written(
        before.height as int,
        0,
        0,
        x,
        y,
        c,
    ) by {
        lemma_rank_in_traversal(before.width as int, before.height as int, x, y);
    }
}

/// Writing the accumulated taps of the next cell advances a pass by one cell.
proof fn lemma_cell_written<T>(
    axis: Axis,
    filter: Filter<T>,
    before: Grid<T>,
    current: Grid<T>,
    next: Grid<T>,
    x: int,
    y: int,
    c: int,
    sum: T,
)
    requires
        in_progress(axis, filter, before, current, rank_of(before.height as int, x, y), c),
        before.contains(x, y, c),
        taps_stay_inside(filter.stride, filter.size(), axis.extent(before)),
        accumulates(
            filter.step,
            filter.zero,
            tap_samples(axis, filter.stride, filter.weights.len(), before, current, x, y, c),
            filter.weights,
            filter.weights.len(),
            sum,
        ),
        next == (Grid { samples: current.samples.update(current.offset(x, y, c), sum), ..current }),
    ensures
        in_progress(axis, filter, before, next, rank_of(before.height as int, x, y), c + 1),
{
    let height = before.height as int;
    let rank = rank_of(height, x, y);
    lemma_offset_in_range(current, x, y, c);
    assert(next.at(x, y, c) == sum);
    assert forall|ox: int, oy: int, oc: int|
        before.contains(ox, oy, oc) && written(height, rank, c + 1, ox, oy, oc) implies #[trigger] settled(
        axis,
        filter,
        before,
        next,
        ox,
        oy,
        oc,
    ) by {
        lemma_taps_kept(
            axis,
            filter.stride,
            filter.weights.len(),
            before,
            current,
            next,
            x,
            y,
            c,
            sum,
            ox,
            oy,
            oc,
        );
        if rank_of(height, ox, oy) == rank {
            lemma_rank_injective(height, ox, oy, x, y);
        }
        if !(ox == x && oy == y && oc == c) {
            lemma_other_cell_kept(current, next, x, y, c, sum, ox, oy, oc);
            assert(written(height, rank, c, ox, oy, oc));
            assert(settled(axis, filter, before, current, ox, oy, oc));
        }
    }
    assert forall|ox: int, oy: int, oc: int|
        before.contains(ox, oy, oc) && !written(height, rank, c + 1, ox, oy, oc) implies #[trigger] next.at(
        ox,
        oy,
        oc,
    ) == before.at(ox, oy, oc) by {
        lemma_other_cell_kept(current, next, x, y, c, sum, ox, oy, oc);
        assert(!written(height, rank, c, ox, oy, oc));
        assert(current.at(ox, oy, oc) == before.at(ox, oy, oc));
    }
}

/// Once every channel of a pixel is written, the pass stands at the next pixel.
proof fn lemma_pixel_written<T>(
    axis: Axis,
    filter: Filter<T>,
    before: Grid<T>,
    current: Grid<T>,
    rank: int,
)
    requires
        in_progress(axis, filter, before, current, rank, before.channels as int),
    ensures
        in_progress(axis, filter, before, current, rank + 1, 0),
{
    let height = before.height as int;
    assert forall|x: int, y: int, c: int| before.contains(x, y, c) implies (written(
        height,
        rank + 1,
        0,
        x,
        y,
        c,
    ) <==> written(height, rank, before.channels as int, x, y, c)) by {}
}

/// Once every pixel is written, the pass is complete.
proof fn lemma_pass_ends<T>(axis: Axis, filter: Filter<T>, before: Grid<T>, current: Grid<T>)
    requires
        in_progress(axis, filter, before, current, before.pixels() as int, 0),
    ensures
        swept(axis, filter, before, current),
{
    assert forall|x: int, y: int, c: int| before.contains(x, y, c) implies #[trigger] settled(
        axis,
        filter,
        before,
        current,
        x,
        y,
        c,
    ) by {
        lemma_rank_in_traversal(before.width as int, before.height as int, x, y);
        assert(written(before.height as int, before.pixels() as int, 0, x, y, c));
    }
}

/// The filter that a kernel makes with an arithmetic at a stride.
pub open spec fn filter_of<
    T,
    A: Fn(T, T) -> T,
    S: Fn(T, T) -> T,
    M: Fn(T, T) -> T,
    D: Fn(T, T) -> T,
    L: Fn(T, T) -> bool,
>(arithmetic: Arithmetic<T, A, S, M, D, L>, weights: Seq<T>, stride: int) -> Filter<T> {
    Filter { step: arithmetic.accumulation(), zero: arithmetic.zero, weights, stride }
}

/// Accumulates the taps of the cell `(x, y, c)` from the buffer as a pass
/// finds it on reaching that cell.
fn gather<
    T: Copy,
    A: Fn(T, T) -> T,
    S: Fn(T, T) -> T,
    M: Fn(T, T) -> T,
    D: Fn(T, T) -> T,
    L: Fn(T, T) -> bool,
    const SIZE: usize,
>(
    buffer: &Buffer<T>,
    axis: Axis,
    weights: &[T; SIZE],
    stride: usize,
    arithmetic: &Arithmetic<T, A, S, M, D, L>,
    x: u32,
    y: u32,
    c: usize,
    Ghost(before): Ghost<Grid<T>>,
) -> (sum: T)
    requires
        arithmetic.total(),
        taps_stay_inside(stride as int, SIZE as int, axis.extent(before)),
        before.contains(x as int, y as int, c as int),
        in_progress(
            axis,
            filter_of(*arithmetic, weights@, stride as int),
            before,
            buffer@,
            rank_of(before.height as int, x as int, y as int),
            c as int,
        ),
    ensures
        accumulates(
            arithmetic.accumulation(),
            arithmetic.zero,
            tap_samples(axis, stride as int, SIZE as nat, before, buffer@, x as int, y as int, c as int),
            weights@,
            SIZE as nat,
            sum,
        ),
{
    let half: usize = SIZE / 2;
    let coordinate: usize = match axis {
        Axis::Horizontal => x as usize,
        Axis::Vertical => y as usize,
    };
    let extent: usize = match axis {
        Axis::Horizontal => buffer.width() as usize,
        Axis::Vertical => buffer.height() as usize,
    };
    let ghost samples = tap_samples(
        axis,
        stride as int,
        SIZE as nat,
        before,
        buffer@,
        x as int,
        y as int,
        c as int,
    );
    let mut sum: T = arithmetic.zero;
    let mut tap: usize = 0;
    while tap < SIZE
        invariant
            tap <= SIZE,
            half == SIZE / 2,
            coordinate == axis.coordinate(x as int, y as int),
            extent == axis.extent(before),
            extent <= u32::MAX,
            weights@.len() == SIZE,
            arithmetic.total(),
            taps_stay_inside(stride as int, SIZE as int, axis.extent(before)),
            before.contains(x as int, y as int, c as int),
            in_progress(
                axis,
                filter_of(*arithmetic, weights@, stride as int),
                before,
                buffer@,
                rank_of(before.height as int, x as int, y as int),
                c as int,
            ),
            samples == tap_samples(
                axis,
                stride as int,
                SIZE as nat,
                before,
                buffer@,
                x as int,
                y as int,
                c as int,
            ),
            accumulates(
                arithmetic.accumulation(),
                arithmetic.zero,
                samples,
                weights@,
                tap as nat,
                sum,
            ),
        decreases SIZE - tap,
    {
        let offset: isize = if tap >= half {
            (tap - half) as isize
        } else {
            -((half - tap) as isize)
        };
        proof {
            lemma_tap_reads_cell(
                axis,
                stride as int,
                SIZE as int,
                before,
                x as int,
                y as int,
                c as int,
                tap as int,
            );
        }
        let source: u32 = Buffer::<T>::compute_pixel_index(stride, SIZE, offset, coordinate, extent);
        let sample: T = match axis {
            Axis::Horizontal => buffer.get(source, y, c),
            Axis::Vertical => buffer.get(x, source, c),
        };
        proof {
            let (sx, sy) = axis.place(x as int, y as int, source as int);
            assert(sample == buffer@.at(sx, sy, c as int));
            assert(!written(
                before.height as int,
                rank_of(before.height as int, x as int, y as int),
                c as int,
                sx,
                sy,
                c as int,
            ) ==> buffer@.at(sx, sy, c as int) == before.at(sx, sy, c as int));
            assert(sample == samples[tap as int]);
        }
        let next: T = arithmetic.accumulate(sum, sample, weights[tap]);
        proof {
            assert(arithmetic.accumulation()(sum, samples[tap as int], weights@[tap as int], next));
            lemma_accumulates_step(
                arithmetic.accumulation(),
                arithmetic.zero,
                samples,
                weights@,
                tap as nat,
                sum,
                next,
            );
        }
        sum = next;
        tap += 1;
    }
    sum
}

/// Filters the whole buffer along `axis`, in place, pixel by pixel in the
/// order of an `ImageIterator`.
fn sweep<
    T: Copy,
    A: Fn(T, T) -> T,
    S: Fn(T, T) -> T,
    M: Fn(T, T) -> T,
    D: Fn(T, T) -> T,
    L: Fn(T, T) -> bool,
    const SIZE: usize,
>(
    buffer: &mut Buffer<T>,
    axis: Axis,
    weights: &[T; SIZE],
    stride: usize,
    arithmetic: &Arithmetic<T, A, S, M, D, L>,
)
    requires
        old(buffer)@.wf(),
        arithmetic.total(),
        old(buffer)@.samples.len() > 0 ==> taps_stay_inside(
            stride as int,
            SIZE as int,
            axis.extent(old(buffer)@),
        ),
    ensures
        final(buffer)@.wf(),
        swept(
            axis,
            filter_of(*arithmetic, weights@, stride as int),
            old(buffer)@,
            final(buffer)@,
        ),
{
    let ghost before = buffer@;
    let ghost filter = filter_of(*arithmetic, weights@, stride as int);
    let channels: usize = buffer.channels();
    let mut cursor = ImageIterator::new(buffer.width(), buffer.height());
    proof {
        lemma_pass_starts(axis, filter, before);
    }
    loop
        invariant
            weights@.len() == SIZE,
            filter == filter_of(*arithmetic, weights@, stride as int),
            channels == before.channels,
            cursor.width() == before.width,
            cursor.height() == before.height,
            cursor.position() <= before.pixels(),
            buffer@.wf(),
            arithmetic.total(),
            before.samples.len() > 0 ==> taps_stay_inside(
                stride as int,
                SIZE as int,
                axis.extent(before),
            ),
            in_progress(axis, filter, before, buffer@, cursor.position() as int, 0),
        ensures
            buffer@.wf(),
            swept(axis, filter, before, buffer@),
        decreases before.pixels() - cursor.position(),
    {
        let ghost rank = cursor.position() as int;
        match cursor.next() {
            None => {
                proof {
                    lemma_pass_ends(axis, filter, before, buffer@);
                }
                break ;
            },
            Some((x, y)) => {
                proof {
                    lemma_coordinate_in_grid(before.width as int, before.height as int, rank);
                }
                let mut c: usize = 0;
                while c < channels
                    invariant
                        c <= channels,
                        weights@.len() == SIZE,
                        filter == filter_of(*arithmetic, weights@, stride as int),
                        channels == before.channels,
                        x < before.width,
                        y < before.height,
                        rank == rank_of(before.height as int, x as int, y as int),
                        buffer@.wf(),
                        arithmetic.total(),
                        before.samples.len() > 0 ==> taps_stay_inside(
                            stride as int,
                            SIZE as int,
                            axis.extent(before),
                        ),
                        in_progress(axis, filter, before, buffer@, rank, c as int),
                    decreases channels - c,
                {
                    proof {
                        lemma_offset_in_range(before, x as int, y as int, c as int);
                    }
                    let sum: T = gather(
                        buffer,
                        axis,
                        weights,
                        stride,
                        arithmetic,
                        x,
                        y,
                        c,
                        Ghost(before),
                    );
                    let ghost current = buffer@;
                    buffer.set(x, y, c, sum);
                    proof {
                        lemma_cell_written(
                            axis,
                            filter,
                            before,
                            current,
                            buffer@,
                            x as int,
                            y as int,
                            c as int,
                            sum,
                        );
                    }
                    c += 1;
                }
                proof {
                    lemma_pixel_written(axis, filter, before, buffer@, rank);
                }
            },
        }
    }
}

/// Separable filtering of a grid of samples, in place.
pub trait Convolution<T: Copy>: View<V = Grid<T>> + Sized {
    /// Computes the coordinate that a kernel tap reads along one axis.
    ///
    /// `kernel_index` is the tap's offset from the kernel center,
    /// `pixel_index` the coordinate being filtered and `max` the extent of the
    /// axis. The folded position is computed exactly and then reduced to the
    /// range of the result type, so the function is total: it returns for
    /// every input, and the result is the folded position whenever that
    /// position is representable.
    fn compute_pixel_index(
        stride: usize,
        kernel_size: usize,
        kernel_index: isize,
        pixel_index: usize,
        max: usize,
    ) -> (index: u32)
        ensures
            index as int == reflected_index(
                stride as int,
                kernel_size as int,
                kernel_index as int,
                pixel_index as int,
                max as int,
            ) % coordinate_modulus(),
            0 <= reflected_index(
                stride as int,
                kernel_size as int,
                kernel_index as int,
                pixel_index as int,
                max as int,
            ) <= u32::MAX ==> index as int == reflected_index(
                stride as int,
                kernel_size as int,
                kernel_index as int,
                pixel_index as int,
                max as int,
            ),
            raw_index(stride as int, kernel_index as int, pixel_index as int) < 0 && -raw_index(
                stride as int,
                kernel_index as int,
                pixel_index as int,
            ) <= u32::MAX ==> index as int == -raw_index(
                stride as int,
                kernel_index as int,
                pixel_index as int,
            ),
            ({
                let raw = raw_index(stride as int, kernel_index as int, pixel_index as int);
                let limit = max as int - kernel_size as int / 2;
                let overshoot = raw - limit;
                raw >= 0 && raw > limit && 0 <= max as int - overshoot <= u32::MAX ==> index as int
                    == max as int - overshoot
            }),
    {
        let half: i128 = (kernel_size / 2) as i128;
        let extent: i128 = max as i128;
        proof {
            lemma_product_bounds(
                kernel_index as int,
                stride as int,
                -0x8000_0000_0000_0000,
                0x7fff_ffff_ffff_ffff,
                0xffff_ffff_ffff_ffff,
            );
        }
        let distance: i128 = (kernel_index as i128) * (stride as i128);
        let raw: i128 = (pixel_index as i128) + distance;
        let folded: i128 = if raw < 0 {
            -raw
        } else if raw > extent - half {
            extent - (raw - extent + half)
        } else {
            raw
        };
        let modulus: i128 = 0x1_0000_0000;
        if folded >= 0 {
            (folded % modulus) as u32
        } else {
            let rest: i128 = (-folded) % modulus;
            if rest == 0 {
                0
            } else {
                (modulus - rest) as u32
            }
        }
    }

    /// Filters the grid with `kernel` along its rows, then filters the result
    /// along its columns, both times in place.
    ///
    /// Each cell becomes the sum of its taps, `sample * weight` added up in
    /// tap order from zero, with the arithmetic that the caller supplies.
    /// Channels are filtered independently. A grid without samples is left
    /// as it is. Every tap must read inside a grid that has samples:
    /// `stays_inside` tells whether it does.
    ///
    /// A kernel of one weight that hands every sample through changes
    /// nothing, at any stride. A kernel whose weights add up to one changes
    /// nothing in a grid that holds one value everywhere.
    fn convolve<
        const KERNEL_SIZE: usize,
        A: Fn(T, T) -> T,
        S: Fn(T, T) -> T,
        M: Fn(T, T) -> T,
        D: Fn(T, T) -> T,
        L: Fn(T, T) -> bool,
    >(
        &mut self,
        kernel: SeparableKernel<T, KERNEL_SIZE>,
        stride: usize,
        arithmetic: &Arithmetic<T, A, S, M, D, L>,
    )
        requires
            old(self)@.wf(),
            arithmetic.total(),
            taps_fit(stride as int, KERNEL_SIZE as int, old(self)@),
        ensures
            final(self)@.wf(),
            convolved(filter_of(*arithmetic, kernel@, stride as int), old(self)@, final(self)@),
            old(self)@.samples.len() == 0 ==> final(self)@ == old(self)@,
            hands_through(filter_of(*arithmetic, kernel@, stride as int), old(self)@)
                ==> final(self)@ == old(self)@,
            forall|value: T|
                uniform(old(self)@, value) && #[trigger] preserves(
                    filter_of(*arithmetic, kernel@, stride as int),
                    value,
                ) ==> final(self)@ == old(self)@,
    ;
}

impl<T: Copy> Convolution<T> for Buffer<T> {
    fn convolve<
        const KERNEL_SIZE: usize,
        A: Fn(T, T) -> T,
        S: Fn(T, T) -> T,
        M: Fn(T, T) -> T,
        D: Fn(T, T) -> T,
        L: Fn(T, T) -> bool,
    >(
        &mut self,
        kernel: SeparableKernel<T, KERNEL_SIZE>,
        stride: usize,
        arithmetic: &Arithmetic<T, A, S, M, D, L>,
    ) {
        let weights: [T; KERNEL_SIZE] = kernel.values();
        let ghost before = self@;
        sweep(self, Axis::Horizontal, &weights, stride, arithmetic);
        let ghost between = self@;
        sweep(self, Axis::Vertical, &weights, stride, arithmetic);
        proof {
            let filter = filter_of(*arithmetic, kernel@, stride as int);
            assert(swept(Axis::Horizontal, filter, before, between));
            assert(before.samples.len() == 0 ==> self@.samples =~= before.samples);
            if hands_through(filter, before) {
                lemma_unit_kernel_is_identity(filter, before, self@);
            }
            assert forall|value: T|
                uniform(before, value) && #[trigger] preserves(filter, value) implies self@
                == before by {
                lemma_constant_grid_is_preserved(filter, before, self@, value);
            }
        }
    }
}

impl<T: Copy> Buffer<T> {
    /// Convolves the buffer if every tap reads inside it, and tells whether
    /// it did. A buffer that a tap would read outside of is left as it is.
    pub fn try_convolve<
        const KERNEL_SIZE: usize,
        A: Fn(T, T) -> T,
        S: Fn(T, T) -> T,
        M: Fn(T, T) -> T,
        D: Fn(T, T) -> T,
        L: Fn(T, T) -> bool,
    >(
        &mut self,
        kernel: SeparableKernel<T, KERNEL_SIZE>,
        stride: usize,
        arithmetic: &Arithmetic<T, A, S, M, D, L>,
    ) -> (done: bool)
        requires
            old(self)@.wf(),
            arithmetic.total(),
        ensures
            final(self)@.wf(),
            done == taps_fit(stride as int, KERNEL_SIZE as int, old(self)@),
            done ==> convolved(
                filter_of(*arithmetic, kernel@, stride as int),
                old(self)@,
                final(self)@,
            ),
            !done ==> final(self)@ == old(self)@,
    {
        let fits: bool = self.len() == 0 || (stays_inside(
            stride,
            KERNEL_SIZE,
            self.width() as usize,
        ) && stays_inside(stride, KERNEL_SIZE, self.height() as usize));
        if fits {
            self.convolve(kernel, stride, arithmetic);
        }
        fits
    }
}

/// A pass with a single weight that hands every sample through leaves the
/// grid as it was.
proof fn lemma_unit_pass<T>(axis: Axis, filter: Filter<T>, before: Grid<T>, after: Grid<T>)
    requires
        before.wf(),
        hands_through(filter, before),
        swept(axis, filter, before, after),
    ensures
        after == before,
{
    assert forall|x: int, y: int, c: int| before.contains(x, y, c) implies before.at(x, y, c)
        == after.at(x, y, c) by {
        lemma_offset_in_range(before, x, y, c);
        assert(settled(axis, filter, before, after, x, y, c));
        let samples = tap_samples(axis, filter.stride, 1, before, after, x, y, c);
        let center = tap_offset(1, 0);
        assert(center * filter.stride == 0) by (nonlinear_arith)
            requires
                center == 0,
        ;
        assert(tap_source(axis, filter.stride, 1, before, x, y, 0) == axis.coordinate(x, y));
        assert(samples[0] == before.at(x, y, c));
        let partial = choose|partial: T|
            accumulates(filter.step, filter.zero, samples, filter.weights, 0, partial)
                && #[trigger] (filter.step)(
                partial,
                samples[1 - 1],
                filter.weights[1 - 1],
                after.at(x, y, c),
            );
        assert(partial == filter.zero);
    }
    lemma_grids_equal(before, after);
}

/// Convolving with a kernel of one weight that hands every sample through is
/// the identity, at any stride: if `zero + sample * weight` can only be the
/// sample, for that weight and every sample of the grid, the grid comes out
/// as it went in.
pub proof fn lemma_unit_kernel_is_identity<T>(filter: Filter<T>, before: Grid<T>, after: Grid<T>)
    requires
        before.wf(),
        hands_through(filter, before),
        convolved(filter, before, after),
    ensures
        after == before,
{
    let between = choose|between: Grid<T>|
        #![trigger swept(Axis::Horizontal, filter, before, between)]
        swept(Axis::Horizontal, filter, before, between) && swept(
            Axis::Vertical,
            filter,
            between,
            after,
        );
    lemma_unit_pass(Axis::Horizontal, filter, before, between);
    lemma_unit_pass(Axis::Vertical, filter, between, after);
}

/// After a pass over a grid that holds `value` everywhere, with a filter
/// that preserves `value`, the cell `(x, y, c)` holds `value`.
proof fn lemma_constant_cell<T>(
    axis: Axis,
    filter: Filter<T>,
    before: Grid<T>,
    after: Grid<T>,
    value: T,
    x: int,
    y: int,
    c: int,
)
    requires
        before.wf(),
        before.contains(x, y, c),
        uniform(before, value),
        taps_stay_inside(filter.stride, filter.size(), axis.extent(before)),
        preserves(filter, value),
        swept(axis, filter, before, after),
    ensures
        after.at(x, y, c) == value,
    decreases axis.coordinate(x, y),
{
    let samples = tap_samples(axis, filter.stride, filter.weights.len(), before, after, x, y, c);
    assert forall|tap: int| 0 <= tap < filter.weights.len() implies samples[tap] == value by {
        lemma_tap_reads_cell(axis, filter.stride, filter.size(), before, x, y, c, tap);
        let source = tap_source(axis, filter.stride, filter.size(), before, x, y, tap);
        let (sx, sy) = axis.place(x, y, source);
        if source < axis.coordinate(x, y) {
            lemma_constant_cell(axis, filter, before, after, value, sx, sy, c);
        } else {
            lemma_offset_in_range(before, sx, sy, c);
        }
    }
    assert(samples =~= constant(filter.weights.len(), value));
    assert(settled(axis, filter, before, after, x, y, c));
}

/// A pass over a grid that holds `value` everywhere, with a filter that
/// preserves `value`, leaves the grid as it was.
proof fn lemma_constant_pass<T>(
    axis: Axis,
    filter: Filter<T>,
    before: Grid<T>,
    after: Grid<T>,
    value: T,
)
    requires
        before.wf(),
        uniform(before, value),
        before.samples.len() > 0 ==> taps_stay_inside(
            filter.stride,
            filter.size(),
            axis.extent(before),
        ),
        preserves(filter, value),
        swept(axis, filter, before, after),
    ensures
        after == before,
{
    assert forall|x: int, y: int, c: int| before.contains(x, y, c) implies before.at(x, y, c)
        == after.at(x, y, c) by {
        lemma_offset_in_range(before, x, y, c);
        lemma_constant_cell(axis, filter, before, after, value, x, y, c);
    }
    lemma_grids_equal(before, after);
}

/// Convolving a constant grid with a kernel whose weights add up to one
/// leaves it unchanged: if accumulating `value` with each weight in turn,
/// starting from zero, can only give `value`, a grid that holds `value`
/// everywhere comes out as it went in.
pub proof fn lemma_constant_grid_is_preserved<T>(
    filter: Filter<T>,
    before: Grid<T>,
    after: Grid<T>,
    value: T,
)
    requires
        before.wf(),
        uniform(before, value),
        taps_fit(filter.stride, filter.size(), before),
        preserves(filter, value),
        convolved(filter, before, after),
    ensures
        after == before,
{
    let between = choose|between: Grid<T>|
        #![trigger swept(Axis::Horizontal, filter, before, between)]
        swept(Axis::Horizontal, filter, before, between) && swept(
            Axis::Vertical,
            filter,
            between,
            after,
        );
    lemma_constant_pass(Axis::Horizontal, filter, before, between, value);
    lemma_constant_pass(Axis::Vertical, filter, between, after, value);
}

/// `step` has at most one sum for each partial sum, sample and weight.
pub open spec fn single_valued<T>(step: spec_fn(T, T, T, T) -> bool) -> bool {
    forall|partial: T, sample: T, weight: T, one: T, other: T|
        #[trigger] step(partial, sample, weight, one) && #[trigger] step(
            partial,
            sample,
            weight,
            other,
        ) ==> one == other
}

/// Accumulating the same samples and weights with a single-valued step
/// gives one sum.
proof fn lemma_accumulates_once<T>(
    step: spec_fn(T, T, T, T) -> bool,
    zero: T,
    samples: Seq<T>,
    weights: Seq<T>,
    count: nat,
    one: T,
    other: T,
)
    requires
        single_valued(step),
        accumulates(step, zero, samples, weights, count, one),
        accumulates(step, zero, samples, weights, count, other),
    ensures
        one == other,
    decreases count,
{
    if count > 0 {
        let first = choose|partial: T|
            accumulates(step, zero, samples, weights, (count - 1) as nat, partial)
                && #[trigger] step(partial, samples[count - 1], weights[count - 1], one);
        let second = choose|partial: T|
            accumulates(step, zero, samples, weights, (count - 1) as nat, partial)
                && #[trigger] step(partial, samples[count - 1], weights[count - 1], other);
        lemma_accumulates_once(step, zero, samples, weights, (count - 1) as nat, first, second);
    }
}

/// Two outcomes of one pass with a single-valued step agree at the cell
/// `(x, y, c)`.
proof fn lemma_cell_swept_once<T>(
    axis: Axis,
    filter: Filter<T>,
    before: Grid<T>,
    one: Grid<T>,
    other: Grid<T>,
    x: int,
    y: int,
    c: int,
)
    requires
        before.wf(),
        before.contains(x, y, c),
        single_valued(filter.step),
        taps_stay_inside(filter.stride, filter.size(), axis.extent(before)),
        swept(axis, filter, before, one),
        swept(axis, filter, before, other),
    ensures
        one.at(x, y, c) == other.at(x, y, c),
    decreases axis.coordinate(x, y),
{
    let seen = tap_samples(axis, filter.stride, filter.weights.len(), before, one, x, y, c);
    let also = tap_samples(axis, filter.stride, filter.weights.len(), before, other, x, y, c);
    assert forall|tap: int| 0 <= tap < filter.weights.len() implies seen[tap] == also[tap] by {
        lemma_tap_reads_cell(axis, filter.stride, filter.size(), before, x, y, c, tap);
        let source = tap_source(axis, filter.stride, filter.size(), before, x, y, tap);
        let (sx, sy) = axis.place(x, y, source);
        if source < axis.coordinate(x, y) {
            lemma_cell_swept_once(axis, filter, before, one, other, sx, sy, c);
        }
    }
    assert(seen =~= also);
    assert(settled(axis, filter, before, one, x, y, c));
    assert(settled(axis, filter, before, other, x, y, c));
    lemma_accumulates_once(
        filter.step,
        filter.zero,
        seen,
        filter.weights,
        filter.weights.len(),
        one.at(x, y, c),
        other.at(x, y, c),
    );
}

/// One pass with a single-valued step has one outcome.
proof fn lemma_swept_once<T>(
    axis: Axis,
    filter: Filter<T>,
    before: Grid<T>,
    one: Grid<T>,
    other: Grid<T>,
)
    requires
        before.wf(),
        single_valued(filter.step),
        before.samples.len() > 0 ==> taps_stay_inside(
            filter.stride,
            filter.size(),
            axis.extent(before),
        ),
        swept(axis, filter, before, one),
        swept(axis, filter, before, other),
    ensures
        one == other,
{
    assert forall|x: int, y: int, c: int| one.contains(x, y, c) implies one.at(x, y, c)
        == other.at(x, y, c) by {
        lemma_offset_in_range(before, x, y, c);
        lemma_cell_swept_once(axis, filter, before, one, other, x, y, c);
    }
    lemma_grids_equal(one, other);
}

/// The contract of `convolve` leaves nothing open: where the arithmetic has
/// at most one sum for each input, a grid has at most one convolved form.
pub proof fn lemma_convolved_once<T>(
    filter: Filter<T>,
    before: Grid<T>,
    one: Grid<T>,
    other: Grid<T>,
)
    requires
        before.wf(),
        single_valued(filter.step),
        taps_fit(filter.stride, filter.size(), before),
        convolved(filter, before, one),
        convolved(filter, before, other),
    ensures
        one == other,
{
    let first = choose|between: Grid<T>|
        #![trigger swept(Axis::Horizontal, filter, before, between)]
        swept(Axis::Horizontal, filter, before, between) && swept(
            Axis::Vertical,
            filter,
            between,
            one,
        );
    let second = choose|between: Grid<T>|
        #![trigger swept(Axis::Horizontal, filter, before, between)]
        swept(Axis::Horizontal, filter, before, between) && swept(
            Axis::Vertical,
            filter,
            between,
            other,
        );
    lemma_swept_once(Axis::Horizontal, filter, before, first, second);
    lemma_swept_once(Axis::Vertical, filter, first, one, other);
}

/// An arithmetic whose operations each have one outcome accumulates to one
/// sum.
pub proof fn lemma_deterministic_filter<
    T,
    A: Fn(T, T) -> T,
    S: Fn(T, T) -> T,
    M: Fn(T, T) -> T,
    D: Fn(T, T) -> T,
    L: Fn(T, T) -> bool,
>(arithmetic: Arithmetic<T, A, S, M, D, L>)
    requires
        arithmetic.deterministic(),
    ensures
        single_valued(arithmetic.accumulation()),
{
    let step = arithmetic.accumulation();
    assert forall|partial: T, sample: T, weight: T, one: T, other: T|
        #[trigger] step(partial, sample, weight, one) && #[trigger] step(
            partial,
            sample,
            weight,
            other,
        ) implies one == other by {
        let scaled = choose|scaled: T| #[trigger]
            arithmetic.product.ensures((sample, weight), scaled) && arithmetic.sum.ensures(
                (partial, scaled),
                one,
            );
        let again = choose|scaled: T| #[trigger]
            arithmetic.product.ensures((sample, weight), scaled) && arithmetic.sum.ensures(
                (partial, scaled),
                other,
            );
        assert(scaled == again);
    }
}

} // verus!
