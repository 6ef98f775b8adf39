//! Mapping the samples of a grid into a target range.

use crate::arithmetic::Arithmetic;
use crate::buffer::{lemma_component_onto, lemma_component_positions, Buffer, Grid};
use vstd::prelude::*;

verus! {

/// The interval that rescaling maps the observed range onto.
#[derive(Copy, Clone)]
pub enum RescaleRange<T> {
    /// From the first value to the second.
    Custom(T, T),
    /// From zero to one.
    Max,
}

impl<T> RescaleRange<T> {
    /// Lower end of the interval, where `zero` is the sample value zero.
    pub open spec fn lower(self, zero: T) -> T {
        match self {
            RescaleRange::Custom(min, _) => min,
            RescaleRange::Max => zero,
        }
    }

    /// Upper end of the interval, where `one` is the sample value one.
    pub open spec fn upper(self, one: T) -> T {
        match self {
            RescaleRange::Custom(_, max) => max,
            RescaleRange::Max => one,
        }
    }
}

impl<T: Copy> RescaleRange<T> {
    /// Lower end of the interval, where `zero` is the sample value zero.
    pub fn min(self, zero: T) -> (min: T)
        ensures
            min == self.lower(zero),
    {
        match self {
            RescaleRange::Custom(min, _) => min,
            RescaleRange::Max => zero,
        }
    }

    /// Upper end of the interval, where `one` is the sample value one.
    pub fn max(self, one: T) -> (max: T)
        ensures
            max == self.upper(one),
    {
        match self {
            RescaleRange::Custom(_, max) => max,
            RescaleRange::Max => one,
        }
    }
}

/// `result` is a possible image of `value` under the map that sends the
/// observed range `min` to `max` onto `range`.
///
/// Where `min` and `max` differ, the image is
/// `lower + (value - min) * (upper - lower) / (max - min)`, with `lower` and
/// `upper` the ends of `range`. Where neither is below the other, the
/// observed range has no width and no such map exists: the image is then the
/// lower end of `range`, whatever the value.
pub open spec fn rescales<
    T,
    A: Fn(T, T) -> T,
    S: Fn(T, T) -> T,
    M: Fn(T, T) -> T,
    D: Fn(T, T) -> T,
    L: Fn(T, T) -> bool,
>(
    arithmetic: Arithmetic<T, A, S, M, D, L>,
    min: T,
    max: T,
    value: T,
    range: RescaleRange<T>,
    result: T,
) -> bool {
    exists|wide: bool| #[trigger]
        arithmetic.spans(min, max, wide) && (if wide {
            arithmetic.affine(
                min,
                max,
                value,
                range.lower(arithmetic.zero),
                range.upper(arithmetic.one),
                result,
            )
        } else {
            result == range.lower(arithmetic.zero)
        })
}

/// What a rescale is made with: the two anchors that every observed range is
/// widened to hold, and the arithmetic, given by two relations.
/// `answer(a, b, verdict)` says that `verdict` is a possible answer to
/// whether `a < b`, and `image(min, max, value, range, result)` that `result`
/// is a possible image of `value` under the map from `min..max` onto `range`.
#[verifier::reject_recursive_types(T)]
pub struct Scale<T> {
    pub answer: spec_fn(T, T, bool) -> bool,
    pub image: spec_fn(T, T, T, RescaleRange<T>, T) -> bool,
    pub zero: T,
    pub one: T,
}

/// The scale that an arithmetic makes.
pub open spec fn scale_of<
    T,
    A: Fn(T, T) -> T,
    S: Fn(T, T) -> T,
    M: Fn(T, T) -> T,
    D: Fn(T, T) -> T,
    L: Fn(T, T) -> bool,
>(arithmetic: Arithmetic<T, A, S, M, D, L>) -> Scale<T> {
    Scale {
        answer: arithmetic.comparison(),
        image: |min: T, max: T, value: T, range: RescaleRange<T>, result: T|
            rescales(arithmetic, min, max, value, range, result),
        zero: arithmetic.zero,
        one: arithmetic.one,
    }
}

/// `verdict` is a possible answer to the question whether `candidate` lies
/// beyond `current`: below it when looking for the lowest sample, above it
/// when looking for the highest.
pub open spec fn replaces<T>(
    answer: spec_fn(T, T, bool) -> bool,
    lowest: bool,
    candidate: T,
    current: T,
    verdict: bool,
) -> bool {
    if lowest {
        answer(candidate, current, verdict)
    } else {
        answer(current, candidate, verdict)
    }
}

/// `result` is a possible outcome of widening `anchor` by the first `count`
/// samples, one at a time: a sample that lies beyond the value held so far
/// takes its place.
pub open spec fn extreme<T>(
    answer: spec_fn(T, T, bool) -> bool,
    lowest: bool,
    anchor: T,
    samples: Seq<T>,
    count: nat,
    result: T,
) -> bool
    decreases count,
{
    if count == 0 {
        result == anchor
    } else {
        exists|previous: T, verdict: bool|
            extreme(answer, lowest, anchor, samples, (count - 1) as nat, previous)
                && #[trigger] replaces(answer, lowest, samples[count - 1], previous, verdict)
                && result == (if verdict {
                samples[count - 1]
            } else {
                previous
            })
    }
}

/// Looking at one more sample extends a widening by one step.
pub proof fn lemma_extreme_step<T>(
    answer: spec_fn(T, T, bool) -> bool,
    lowest: bool,
    anchor: T,
    samples: Seq<T>,
    count: nat,
    previous: T,
    verdict: bool,
)
    requires
        extreme(answer, lowest, anchor, samples, count, previous),
        replaces(answer, lowest, samples[count as int], previous, verdict),
    ensures
        extreme(
            answer,
            lowest,
            anchor,
            samples,
            count + 1,
            if verdict {
                samples[count as int]
            } else {
                previous
            },
        ),
{
    let next = count + 1;
    assert(extreme(answer, lowest, anchor, samples, (next - 1) as nat, previous));
    assert(replaces(answer, lowest, samples[next - 1], previous, verdict));
}

/// `low` and `high` are a possible observed range of `samples`: the lowest
/// and the highest of them, widened to hold zero and one.
pub open spec fn observed<T>(scale: Scale<T>, samples: Seq<T>, low: T, high: T) -> bool {
    &&& extreme(scale.answer, true, scale.zero, samples, samples.len(), low)
    &&& extreme(scale.answer, false, scale.one, samples, samples.len(), high)
}

/// Every sample of `after` is a possible image of the sample of `before` at
/// the same position, under the map from `low..high` onto `range`.
pub open spec fn mapped<T>(
    image: spec_fn(T, T, T, RescaleRange<T>, T) -> bool,
    low: T,
    high: T,
    range: RescaleRange<T>,
    before: Seq<T>,
    after: Seq<T>,
) -> bool {
    &&& before.len() == after.len()
    &&& forall|i: int|
        0 <= i < before.len() ==> image(low, high, before[i], range, #[trigger] after[i])
}

/// The samples lie between zero and one, and the map from that range onto
/// itself can only hand them back: no sample is below zero, none is above
/// one, and the image of each under the map from zero and one onto the range
/// from zero to one is the sample.
pub open spec fn normalized<T>(scale: Scale<T>, samples: Seq<T>) -> bool {
    &&& forall|i: int, verdict: bool|
        0 <= i < samples.len() && #[trigger] (scale.answer)(samples[i], scale.zero, verdict)
            ==> !verdict
    &&& forall|i: int, verdict: bool|
        0 <= i < samples.len() && #[trigger] (scale.answer)(scale.one, samples[i], verdict)
            ==> !verdict
    &&& forall|i: int, value: T|
        0 <= i < samples.len() && #[trigger] (scale.image)(
            scale.zero,
            scale.one,
            samples[i],
            RescaleRange::Max,
            value,
        ) ==> value == samples[i]
}

/// `after` is an outcome of rescaling `before` as a whole: every sample is
/// mapped from the range observed over all samples onto `range`.
pub open spec fn rescaled<T>(
    scale: Scale<T>,
    range: RescaleRange<T>,
    before: Grid<T>,
    after: Grid<T>,
) -> bool {
    &&& before.same_shape(after)
    &&& exists|low: T, high: T|
        observed(scale, before.samples, low, high) && #[trigger] mapped(
            scale.image,
            low,
            high,
            range,
            before.samples,
            after.samples,
        )
}

/// Channel `c` of `after` is an outcome of rescaling channel `c` of `before`
/// by itself: every sample is mapped from the range observed over the
/// channel onto `range`.
pub open spec fn channel_rescaled<T>(
    scale: Scale<T>,
    range: RescaleRange<T>,
    before: Grid<T>,
    after: Grid<T>,
    c: int,
) -> bool {
    exists|low: T, high: T|
        observed(scale, before.channel(c), low, high) && #[trigger] mapped(
            scale.image,
            low,
            high,
            range,
            before.channel(c),
            after.channel(c),
        )
}

/// `after` is an outcome of rescaling every channel of `before` by itself.
pub open spec fn rescaled_by_channel<T>(
    scale: Scale<T>,
    range: RescaleRange<T>,
    before: Grid<T>,
    after: Grid<T>,
) -> bool {
    &&& before.same_shape(after)
    &&& forall|c: int|
        0 <= c < before.channels ==> #[trigger] channel_rescaled(scale, range, before, after, c)
}

/// Keeps whichever of `candidate` and `current` lies further out.
fn prefer<
    T: Copy,
    A: Fn(T, T) -> T,
    S: Fn(T, T) -> T,
    M: Fn(T, T) -> T,
    D: Fn(T, T) -> T,
    L: Fn(T, T) -> bool,
>(arithmetic: &Arithmetic<T, A, S, M, D, L>, lowest: bool, candidate: T, current: T) -> (kept: (
    T,
    Ghost<bool>,
))
    requires
        arithmetic.total(),
    ensures
        replaces(arithmetic.comparison(), lowest, candidate, current, kept.1@),
        kept.0 == (if kept.1@ {
            candidate
        } else {
            current
        }),
{
    let verdict: bool = if lowest {
        (arithmetic.below)(candidate, current)
    } else {
        (arithmetic.below)(current, candidate)
    };
    if verdict {
        (candidate, Ghost(verdict))
    } else {
        (current, Ghost(verdict))
    }
}

/// Widens `anchor` by every sample of the buffer, in storage order.
fn extreme_of<
    T: Copy,
    A: Fn(T, T) -> T,
    S: Fn(T, T) -> T,
    M: Fn(T, T) -> T,
    D: Fn(T, T) -> T,
    L: Fn(T, T) -> bool,
>(buffer: &Buffer<T>, lowest: bool, anchor: T, arithmetic: &Arithmetic<T, A, S, M, D, L>) -> (result:
    T)
    requires
        arithmetic.total(),
    ensures
        extreme(
            arithmetic.comparison(),
            lowest,
            anchor,
            buffer@.samples,
            buffer@.samples.len(),
            result,
        ),
{
    let len: usize = buffer.len();
    let mut result: T = anchor;
    let mut i: usize = 0;
    while i < len
        invariant
            i <= len,
            len == buffer@.samples.len(),
            arithmetic.total(),
            extreme(arithmetic.comparison(), lowest, anchor, buffer@.samples, i as nat, result),
        decreases len - i,
    {
        let kept = prefer(arithmetic, lowest, buffer.sample(i), result);
        proof {
            lemma_extreme_step(
                arithmetic.comparison(),
                lowest,
                anchor,
                buffer@.samples,
                i as nat,
                result,
                kept.1@,
            );
        }
        result = kept.0;
        i += 1;
    }
    result
}

/// Widens `anchor` by every sample of channel `c`, pixel by pixel.
fn channel_extreme_of<
    T: Copy,
    A: Fn(T, T) -> T,
    S: Fn(T, T) -> T,
    M: Fn(T, T) -> T,
    D: Fn(T, T) -> T,
    L: Fn(T, T) -> bool,
>(
    buffer: &Buffer<T>,
    c: usize,
    lowest: bool,
    anchor: T,
    arithmetic: &Arithmetic<T, A, S, M, D, L>,
) -> (result: T)
    requires
        buffer@.wf(),
        c < buffer@.channels,
        arithmetic.total(),
    ensures
        extreme(
            arithmetic.comparison(),
            lowest,
            anchor,
            buffer@.channel(c as int),
            buffer@.pixels(),
            result,
        ),
{
    let pixels: usize = buffer.pixels();
    let mut result: T = anchor;
    let mut pixel: usize = 0;
    while pixel < pixels
        invariant
            pixel <= pixels,
            pixels == buffer@.pixels(),
            c < buffer@.channels,
            buffer@.wf(),
            arithmetic.total(),
            extreme(
                arithmetic.comparison(),
                lowest,
                anchor,
                buffer@.channel(c as int),
                pixel as nat,
                result,
            ),
        decreases pixels - pixel,
    {
        let position: usize = buffer.component_position(pixel, c);
        let kept = prefer(arithmetic, lowest, buffer.sample(position), result);
        proof {
            lemma_extreme_step(
                arithmetic.comparison(),
                lowest,
                anchor,
                buffer@.channel(c as int),
                pixel as nat,
                result,
                kept.1@,
            );
        }
        result = kept.0;
        pixel += 1;
    }
    result
}

/// Maps every sample from the observed range `low` to `high` onto `range`.
fn remap_all<
    T: Copy,
    A: Fn(T, T) -> T,
    S: Fn(T, T) -> T,
    M: Fn(T, T) -> T,
    D: Fn(T, T) -> T,
    L: Fn(T, T) -> bool,
>(
    buffer: &mut Buffer<T>,
    low: T,
    high: T,
    range: RescaleRange<T>,
    arithmetic: &Arithmetic<T, A, S, M, D, L>,
)
    requires
        arithmetic.total(),
    ensures
        old(buffer)@.same_shape(final(buffer)@),
        mapped(
            scale_of(*arithmetic).image,
            low,
            high,
            range,
            old(buffer)@.samples,
            final(buffer)@.samples,
        ),
{
    let ghost before = buffer@;
    let ghost image = scale_of(*arithmetic).image;
    let len: usize = buffer.len();
    let mut i: usize = 0;
    while i < len
        invariant
            i <= len,
            len == before.samples.len(),
            before.same_shape(buffer@),
            arithmetic.total(),
            image == scale_of(*arithmetic).image,
            forall|j: int|
                0 <= j < i ==> image(low, high, before.samples[j], range, #[trigger] buffer@.samples[j]),
            forall|j: int| i <= j < len ==> #[trigger] buffer@.samples[j] == before.samples[j],
        decreases len - i,
    {
        let value: T = Buffer::<T>::rescale_value(low, high, buffer.sample(i), range, arithmetic);
        buffer.put(i, value);
        i += 1;
    }
}

/// Maps every sample of channel `c` from the observed range `low` to `high`
/// onto `range`, and leaves the other channels alone.
fn remap_channel<
    T: Copy,
    A: Fn(T, T) -> T,
    S: Fn(T, T) -> T,
    M: Fn(T, T) -> T,
    D: Fn(T, T) -> T,
    L: Fn(T, T) -> bool,
>(
    buffer: &mut Buffer<T>,
    c: usize,
    low: T,
    high: T,
    range: RescaleRange<T>,
    arithmetic: &Arithmetic<T, A, S, M, D, L>,
)
    requires
        old(buffer)@.wf(),
        c < old(buffer)@.channels,
        arithmetic.total(),
    ensures
        old(buffer)@.same_shape(final(buffer)@),
        mapped(
            scale_of(*arithmetic).image,
            low,
            high,
            range,
            old(buffer)@.channel(c as int),
            final(buffer)@.channel(c as int),
        ),
        forall|other: int|
            0 <= other < old(buffer)@.channels && other != c
                ==> #[trigger] final(buffer)@.channel(other) == old(buffer)@.channel(other),
{
    let ghost before = buffer@;
    let ghost image = scale_of(*arithmetic).image;
    let pixels: usize = buffer.pixels();
    let mut pixel: usize = 0;
    while pixel < pixels
        invariant
            pixel <= pixels,
            pixels == before.pixels(),
            before.wf(),
            c < before.channels,
            before.same_shape(buffer@),
            arithmetic.total(),
            image == scale_of(*arithmetic).image,
            forall|done: int|
                0 <= done < pixel ==> image(
                    low,
                    high,
                    before.component(done, c as int),
                    range,
                    #[trigger] buffer@.component(done, c as int),
                ),
            forall|ahead: int|
                pixel <= ahead < pixels ==> #[trigger] buffer@.component(ahead, c as int)
                    == before.component(ahead, c as int),
            forall|any: int, other: int|
                0 <= any < pixels && 0 <= other < before.channels && other != c
                    ==> #[trigger] buffer@.component(any, other) == before.component(any, other),
        decreases pixels - pixel,
    {
        let position: usize = buffer.component_position(pixel, c);
        let value: T = Buffer::<T>::rescale_value(
            low,
            high,
            buffer.sample(position),
            range,
            arithmetic,
        );
        let ghost current = buffer@;
        buffer.put(position, value);
        proof {
            assert(current.component(pixel as int, c as int) == before.component(
                pixel as int,
                c as int,
            ));
            assert forall|any: int, other: int|
                0 <= any < pixels && 0 <= other < before.channels && !(any == pixel && other
                    == c) implies #[trigger] buffer@.component(any, other) == current.component(
                any,
                other,
            ) by {
                lemma_component_positions(current, pixel as int, c as int, any, other);
                lemma_component_positions(current, any, other, pixel as int, c as int);
            }
            assert(buffer@.component(pixel as int, c as int) == value);
        }
        pixel += 1;
    }
    proof {
        assert forall|other: int| 0 <= other < before.channels && other != c implies #[trigger] buffer@.channel(
            other,
        ) == before.channel(other) by {
            assert(buffer@.channel(other) =~= before.channel(other));
        }
    }
}

/// Finding the observed range of a grid and mapping its samples into a
/// target range, with the arithmetic that the caller supplies.
pub trait Rescale<T: Copy>: View<V = Grid<T>> + Sized {
    /// The lowest sample, or zero if no sample is below it. Where the
    /// arithmetic's order is a strict order, the result is above neither
    /// zero nor any sample.
    fn min<
        A: Fn(T, T) -> T,
        S: Fn(T, T) -> T,
        M: Fn(T, T) -> T,
        D: Fn(T, T) -> T,
        L: Fn(T, T) -> bool,
    >(&self, arithmetic: &Arithmetic<T, A, S, M, D, L>) -> (low: T)
        requires
            arithmetic.total(),
        ensures
            extreme(
                arithmetic.comparison(),
                true,
                arithmetic.zero,
                self@.samples,
                self@.samples.len(),
                low,
            ),
            forall|below: spec_fn(T, T) -> bool| #[trigger]
                decides(arithmetic.comparison(), below) && strict_order(below) ==> !below(
                    arithmetic.zero,
                    low,
                ) && forall|i: int|
                    0 <= i < self@.samples.len() ==> !below(#[trigger] self@.samples[i], low),
    ;

    /// The highest sample, or one if no sample is above it. Where the
    /// arithmetic's order is a strict order, the result is below neither one
    /// nor any sample.
    fn max<
        A: Fn(T, T) -> T,
        S: Fn(T, T) -> T,
        M: Fn(T, T) -> T,
        D: Fn(T, T) -> T,
        L: Fn(T, T) -> bool,
    >(&self, arithmetic: &Arithmetic<T, A, S, M, D, L>) -> (high: T)
        requires
            arithmetic.total(),
        ensures
            extreme(
                arithmetic.comparison(),
                false,
                arithmetic.one,
                self@.samples,
                self@.samples.len(),
                high,
            ),
            forall|below: spec_fn(T, T) -> bool| #[trigger]
                decides(arithmetic.comparison(), below) && strict_order(below) ==> !below(
                    high,
                    arithmetic.one,
                ) && forall|i: int|
                    0 <= i < self@.samples.len() ==> !below(high, #[trigger] self@.samples[i]),
    ;

    /// Maps every sample into `range`, from the range observed over the
    /// whole grid. A grid that lies between zero and one goes onto the range
    /// from zero to one unchanged.
    fn rescale<
        A: Fn(T, T) -> T,
        S: Fn(T, T) -> T,
        M: Fn(T, T) -> T,
        D: Fn(T, T) -> T,
        L: Fn(T, T) -> bool,
    >(&mut self, range: RescaleRange<T>, arithmetic: &Arithmetic<T, A, S, M, D, L>)
        requires
            arithmetic.total(),
        ensures
            rescaled(scale_of(*arithmetic), range, old(self)@, final(self)@),
            range is Max && normalized(scale_of(*arithmetic), old(self)@.samples) ==> final(self)@
                == old(self)@,
    ;

    /// Maps every sample into `range`, from the range observed over the
    /// sample's own channel. On a grid with one channel this is `rescale`.
    fn channel_wise_rescale<
        A: Fn(T, T) -> T,
        S: Fn(T, T) -> T,
        M: Fn(T, T) -> T,
        D: Fn(T, T) -> T,
        L: Fn(T, T) -> bool,
    >(&mut self, range: RescaleRange<T>, arithmetic: &Arithmetic<T, A, S, M, D, L>)
        requires
            old(self)@.wf(),
            arithmetic.total(),
        ensures
            rescaled_by_channel(scale_of(*arithmetic), range, old(self)@, final(self)@),
            old(self)@.channels == 1 ==> rescaled(
                scale_of(*arithmetic),
                range,
                old(self)@,
                final(self)@,
            ),
    ;

    /// The image of `value` under the affine map that sends `min` to the
    /// lower end of `range` and `max` to its upper end.
    ///
    /// Where neither of `min` and `max` is below the other there is no such
    /// map, and the result is the lower end of `range`.
    fn rescale_value<
        A: Fn(T, T) -> T,
        S: Fn(T, T) -> T,
        M: Fn(T, T) -> T,
        D: Fn(T, T) -> T,
        L: Fn(T, T) -> bool,
    >(
        min: T,
        max: T,
        value: T,
        range: RescaleRange<T>,
        arithmetic: &Arithmetic<T, A, S, M, D, L>,
    ) -> (result: T)
        requires
            arithmetic.total(),
        ensures
            rescales(*arithmetic, min, max, value, range, result),
    {
        let lower: T = range.min(arithmetic.zero);
        if arithmetic.differ(min, max) {
            arithmetic.interpolate(min, max, value, lower, range.max(arithmetic.one))
        } else {
            lower
        }
    }
}

impl<T: Copy> Rescale<T> for Buffer<T> {
    fn min<
        A: Fn(T, T) -> T,
        S: Fn(T, T) -> T,
        M: Fn(T, T) -> T,
        D: Fn(T, T) -> T,
        L: Fn(T, T) -> bool,
    >(&self, arithmetic: &Arithmetic<T, A, S, M, D, L>) -> (low: T) {
        let low: T = extreme_of(self, true, arithmetic.zero, arithmetic);
        proof {
            assert forall|below: spec_fn(T, T) -> bool| #[trigger]
                decides(arithmetic.comparison(), below) && strict_order(below) implies !below(
                arithmetic.zero,
                low,
            ) && forall|i: int|
                0 <= i < self@.samples.len() ==> !below(#[trigger] self@.samples[i], low) by {
                lemma_observed_range_holds_all(
                    arithmetic.comparison(),
                    below,
                    true,
                    arithmetic.zero,
                    self@.samples,
                    self@.samples.len(),
                    low,
                );
            }
        }
        low
    }

    fn max<
        A: Fn(T, T) -> T,
        S: Fn(T, T) -> T,
        M: Fn(T, T) -> T,
        D: Fn(T, T) -> T,
        L: Fn(T, T) -> bool,
    >(&self, arithmetic: &Arithmetic<T, A, S, M, D, L>) -> (high: T) {
        let high: T = extreme_of(self, false, arithmetic.one, arithmetic);
        proof {
            assert forall|below: spec_fn(T, T) -> bool| #[trigger]
                decides(arithmetic.comparison(), below) && strict_order(below) implies !below(
                high,
                arithmetic.one,
            ) && forall|i: int|
                0 <= i < self@.samples.len() ==> !below(high, #[trigger] self@.samples[i]) by {
                lemma_observed_range_holds_all(
                    arithmetic.comparison(),
                    below,
                    false,
                    arithmetic.one,
                    self@.samples,
                    self@.samples.len(),
                    high,
                );
            }
        }
        high
    }

    fn rescale<
        A: Fn(T, T) -> T,
        S: Fn(T, T) -> T,
        M: Fn(T, T) -> T,
        D: Fn(T, T) -> T,
        L: Fn(T, T) -> bool,
    >(&mut self, range: RescaleRange<T>, arithmetic: &Arithmetic<T, A, S, M, D, L>) {
        let ghost before = self@;
        let low: T = extreme_of(self, true, arithmetic.zero, arithmetic);
        let high: T = extreme_of(self, false, arithmetic.one, arithmetic);
        remap_all(self, low, high, range, arithmetic);
        proof {
            let scale = scale_of(*arithmetic);
            assert(observed(scale, before.samples, low, high));
            if range is Max && normalized(scale, before.samples) {
                lemma_normalized_grid_is_kept(scale, before, self@);
            }
        }
    }

    fn channel_wise_rescale<
        A: Fn(T, T) -> T,
        S: Fn(T, T) -> T,
        M: Fn(T, T) -> T,
        D: Fn(T, T) -> T,
        L: Fn(T, T) -> bool,
    >(&mut self, range: RescaleRange<T>, arithmetic: &Arithmetic<T, A, S, M, D, L>) {
        let ghost before = self@;
        let ghost scale = scale_of(*arithmetic);
        let channels: usize = self.channels();
        let mut c: usize = 0;
        while c < channels
            invariant
                c <= channels,
                channels == before.channels,
                before.wf(),
                before.same_shape(self@),
                arithmetic.total(),
                scale == scale_of(*arithmetic),
                forall|done: int|
                    0 <= done < c ==> #[trigger] channel_rescaled(scale, range, before, self@, done),
                forall|ahead: int|
                    c <= ahead < channels ==> #[trigger] self@.channel(ahead) == before.channel(
                        ahead,
                    ),
            decreases channels - c,
        {
            let ghost current = self@;
            let low: T = channel_extreme_of(self, c, true, arithmetic.zero, arithmetic);
            let high: T = channel_extreme_of(self, c, false, arithmetic.one, arithmetic);
            remap_channel(self, c, low, high, range, arithmetic);
            proof {
                assert(current.channel(c as int) == before.channel(c as int));
                assert(before.channel(c as int).len() == before.pixels());
                assert(observed(scale, before.channel(c as int), low, high));
                assert(mapped(
                    scale.image,
                    low,
                    high,
                    range,
                    before.channel(c as int),
                    self@.channel(c as int),
                ));
                assert forall|done: int| 0 <= done < c implies #[trigger] channel_rescaled(
                    scale,
                    range,
                    before,
                    self@,
                    done,
                ) by {
                    assert(channel_rescaled(scale, range, before, current, done));
                    assert(self@.channel(done) == current.channel(done));
                }
            }
            c += 1;
        }
        proof {
            if before.channels == 1 {
                lemma_single_channel_rescale(scale, range, before, self@);
            }
        }
    }
}

/// A widening that no sample can move ends at its anchor.
proof fn lemma_extreme_stays<T>(
    answer: spec_fn(T, T, bool) -> bool,
    lowest: bool,
    anchor: T,
    samples: Seq<T>,
    count: nat,
    result: T,
)
    requires
        count <= samples.len(),
        forall|i: int, verdict: bool|
            0 <= i < samples.len() && #[trigger] replaces(
                answer,
                lowest,
                samples[i],
                anchor,
                verdict,
            ) ==> !verdict,
        extreme(answer, lowest, anchor, samples, count, result),
    ensures
        result == anchor,
    decreases count,
{
    if count > 0 {
        let (previous, verdict) = choose|previous: T, verdict: bool|
            extreme(answer, lowest, anchor, samples, (count - 1) as nat, previous)
                && #[trigger] replaces(answer, lowest, samples[count - 1], previous, verdict)
                && result == (if verdict {
                samples[count - 1]
            } else {
                previous
            });
        lemma_extreme_stays(answer, lowest, anchor, samples, (count - 1) as nat, previous);
    }
}

/// The outcome of a widening is its anchor or one of the samples it looked at.
pub proof fn lemma_extreme_is_anchor_or_sample<T>(
    answer: spec_fn(T, T, bool) -> bool,
    lowest: bool,
    anchor: T,
    samples: Seq<T>,
    count: nat,
    result: T,
)
    requires
        extreme(answer, lowest, anchor, samples, count, result),
    ensures
        result == anchor || exists|i: int| 0 <= i < count && samples[i] == result,
    decreases count,
{
    if count > 0 {
        let (previous, verdict) = choose|previous: T, verdict: bool|
            extreme(answer, lowest, anchor, samples, (count - 1) as nat, previous)
                && #[trigger] replaces(answer, lowest, samples[count - 1], previous, verdict)
                && result == (if verdict {
                samples[count - 1]
            } else {
                previous
            });
        lemma_extreme_is_anchor_or_sample(
            answer,
            lowest,
            anchor,
            samples,
            (count - 1) as nat,
            previous,
        );
        if verdict {
            assert(samples[count - 1] == result);
        } else if previous != anchor {
            let i = choose|i: int| 0 <= i < count - 1 && samples[i] == previous;
            assert(samples[i] == result);
        }
    }
}

/// Every answer is the truth about the relation `below`.
pub open spec fn decides<T>(
    answer: spec_fn(T, T, bool) -> bool,
    below: spec_fn(T, T) -> bool,
) -> bool {
    forall|a: T, b: T, verdict: bool| #[trigger] answer(a, b, verdict) ==> verdict == below(a, b)
}

/// Nothing is below itself, and what is below something below a third is
/// below the third.
pub open spec fn strict_order<T>(below: spec_fn(T, T) -> bool) -> bool {
    &&& forall|a: T| !#[trigger] below(a, a)
    &&& forall|a: T, b: T, c: T| #[trigger] below(a, b) && #[trigger] below(b, c) ==> below(a, c)
}

/// The observed range holds its anchors and every sample: where the answers
/// decide a strict order, the lowest value found is above neither zero nor
/// any sample, and the highest value found is below neither one nor any
/// sample.
pub proof fn lemma_observed_range_holds_all<T>(
    answer: spec_fn(T, T, bool) -> bool,
    below: spec_fn(T, T) -> bool,
    lowest: bool,
    anchor: T,
    samples: Seq<T>,
    count: nat,
    result: T,
)
    requires
        decides(answer, below),
        strict_order(below),
        extreme(answer, lowest, anchor, samples, count, result),
    ensures
        lowest ==> !below(anchor, result) && forall|i: int|
            0 <= i < count ==> !below(#[trigger] samples[i], result),
        !lowest ==> !below(result, anchor) && forall|i: int|
            0 <= i < count ==> !below(result, #[trigger] samples[i]),
    decreases count,
{
    if count > 0 {
        let (previous, verdict) = choose|previous: T, verdict: bool|
            extreme(answer, lowest, anchor, samples, (count - 1) as nat, previous)
                && #[trigger] replaces(answer, lowest, samples[count - 1], previous, verdict)
                && result == (if verdict {
                samples[count - 1]
            } else {
                previous
            });
        lemma_observed_range_holds_all(
            answer,
            below,
            lowest,
            anchor,
            samples,
            (count - 1) as nat,
            previous,
        );
        let last = samples[count - 1];
        if lowest {
            assert(answer(last, previous, verdict));
            assert(verdict == below(last, previous));
            assert forall|i: int| 0 <= i < count implies !below(#[trigger] samples[i], result) by {
                if i < count - 1 {
                    assert(!below(samples[i], previous));
                    if verdict && below(samples[i], last) {
                        assert(below(samples[i], previous));
                    }
                }
            }
            if verdict && below(anchor, last) {
                assert(below(anchor, previous));
            }
        } else {
            assert(answer(previous, last, verdict));
            assert(verdict == below(previous, last));
            assert forall|i: int| 0 <= i < count implies !below(result, #[trigger] samples[i]) by {
                if i < count - 1 {
                    assert(!below(previous, samples[i]));
                    if verdict && below(last, samples[i]) {
                        assert(below(previous, samples[i]));
                    }
                }
            }
            if verdict && below(last, anchor) {
                assert(below(previous, anchor));
            }
        }
    }
}

/// Rescaling a grid that lies between zero and one onto the range from zero
/// to one changes nothing: if no sample is below zero or above one, and the
/// map from that range onto itself can only hand a sample back, the grid
/// comes out as it went in.
pub proof fn lemma_normalized_grid_is_kept<T>(scale: Scale<T>, before: Grid<T>, after: Grid<T>)
    requires
        normalized(scale, before.samples),
        rescaled(scale, RescaleRange::Max, before, after),
    ensures
        after == before,
{
    let count = before.samples.len();
    let (low, high) = choose|low: T, high: T|
        observed(scale, before.samples, low, high) && #[trigger] mapped(
            scale.image,
            low,
            high,
            RescaleRange::Max,
            before.samples,
            after.samples,
        );
    assert forall|i: int, verdict: bool|
        0 <= i < count && #[trigger] replaces(
            scale.answer,
            true,
            before.samples[i],
            scale.zero,
            verdict,
        ) implies !verdict by {
        assert((scale.answer)(before.samples[i], scale.zero, verdict));
    }
    assert forall|i: int, verdict: bool|
        0 <= i < count && #[trigger] replaces(
            scale.answer,
            false,
            before.samples[i],
            scale.one,
            verdict,
        ) implies !verdict by {
        assert((scale.answer)(scale.one, before.samples[i], verdict));
    }
    lemma_extreme_stays(scale.answer, true, scale.zero, before.samples, count, low);
    lemma_extreme_stays(scale.answer, false, scale.one, before.samples, count, high);
    assert forall|i: int| 0 <= i < count implies after.samples[i] == before.samples[i] by {
        assert((scale.image)(
            scale.zero,
            scale.one,
            before.samples[i],
            RescaleRange::Max,
            after.samples[i],
        ));
    }
    assert(after.samples =~= before.samples);
}

/// The map from zero and one onto the range from zero to one hands a value
/// back wherever the arithmetic says so: if zero is below one, every
/// possible image of `value` is a possible value of
/// `zero + (value - zero) * (one - zero) / (one - zero)`.
pub proof fn lemma_unit_range_image<
    T,
    A: Fn(T, T) -> T,
    S: Fn(T, T) -> T,
    M: Fn(T, T) -> T,
    D: Fn(T, T) -> T,
    L: Fn(T, T) -> bool,
>(arithmetic: Arithmetic<T, A, S, M, D, L>, value: T, result: T)
    requires
        forall|wide: bool| #[trigger]
            arithmetic.below.ensures((arithmetic.zero, arithmetic.one), wide) ==> wide,
        rescales(arithmetic, arithmetic.zero, arithmetic.one, value, RescaleRange::Max, result),
    ensures
        arithmetic.affine(
            arithmetic.zero,
            arithmetic.one,
            value,
            arithmetic.zero,
            arithmetic.one,
            result,
        ),
{
    let wide = choose|wide: bool| #[trigger]
        arithmetic.spans(arithmetic.zero, arithmetic.one, wide) && (if wide {
            arithmetic.affine(
                arithmetic.zero,
                arithmetic.one,
                value,
                RescaleRange::<T>::Max.lower(arithmetic.zero),
                RescaleRange::<T>::Max.upper(arithmetic.one),
                result,
            )
        } else {
            result == RescaleRange::<T>::Max.lower(arithmetic.zero)
        });
    assert(wide);
}

/// On a grid with one channel, rescaling channel by channel and rescaling
/// as a whole have the same outcomes.
pub proof fn lemma_single_channel_rescale<T>(
    scale: Scale<T>,
    range: RescaleRange<T>,
    before: Grid<T>,
    after: Grid<T>,
)
    requires
        before.wf(),
        before.channels == 1,
    ensures
        rescaled_by_channel(scale, range, before, after) <==> rescaled(
            scale,
            range,
            before,
            after,
        ),
{
    if before.same_shape(after) {
        assert(before.pixels() * 1 == before.pixels()) by (nonlinear_arith);
        assert(before.channel(0) =~= before.samples);
        assert(after.channel(0) =~= after.samples);
        if rescaled_by_channel(scale, range, before, after) {
            assert(channel_rescaled(scale, range, before, after, 0));
        }
    }
}

/// There is at most one answer for each pair of samples.
pub open spec fn single_answer<T>(answer: spec_fn(T, T, bool) -> bool) -> bool {
    forall|a: T, b: T, one: bool, other: bool|
        #[trigger] answer(a, b, one) && #[trigger] answer(a, b, other) ==> one == other
}

/// There is at most one image for each observed range, sample and target
/// range.
pub open spec fn single_image<T>(image: spec_fn(T, T, T, RescaleRange<T>, T) -> bool) -> bool {
    forall|low: T, high: T, value: T, range: RescaleRange<T>, one: T, other: T|
        #[trigger] image(low, high, value, range, one) && #[trigger] image(
            low,
            high,
            value,
            range,
            other,
        ) ==> one == other
}

/// Widening by the same samples with single answers gives one result.
proof fn lemma_extreme_once<T>(
    answer: spec_fn(T, T, bool) -> bool,
    lowest: bool,
    anchor: T,
    samples: Seq<T>,
    count: nat,
    one: T,
    other: T,
)
    requires
        single_answer(answer),
        extreme(answer, lowest, anchor, samples, count, one),
        extreme(answer, lowest, anchor, samples, count, other),
    ensures
        one == other,
    decreases count,
{
    if count > 0 {
        let (first, first_verdict) = choose|previous: T, verdict: bool|
            extreme(answer, lowest, anchor, samples, (count - 1) as nat, previous)
                && #[trigger] replaces(answer, lowest, samples[count - 1], previous, verdict)
                && one == (if verdict {
                samples[count - 1]
            } else {
                previous
            });
        let (second, second_verdict) = choose|previous: T, verdict: bool|
            extreme(answer, lowest, anchor, samples, (count - 1) as nat, previous)
                && #[trigger] replaces(answer, lowest, samples[count - 1], previous, verdict)
                && other == (if verdict {
                samples[count - 1]
            } else {
                previous
            });
        lemma_extreme_once(answer, lowest, anchor, samples, (count - 1) as nat, first, second);
        if lowest {
            assert(answer(samples[count - 1], first, first_verdict));
            assert(answer(samples[count - 1], second, second_verdict));
        } else {
            assert(answer(first, samples[count - 1], first_verdict));
            assert(answer(second, samples[count - 1], second_verdict));
        }
    }
}

/// Samples have one observed range and one image of each sample, where
/// answers and images are single.
proof fn lemma_mapped_once<T>(
    scale: Scale<T>,
    range: RescaleRange<T>,
    samples: Seq<T>,
    low: T,
    high: T,
    also_low: T,
    also_high: T,
    one: Seq<T>,
    other: Seq<T>,
)
    requires
        single_answer(scale.answer),
        single_image(scale.image),
        observed(scale, samples, low, high),
        observed(scale, samples, also_low, also_high),
        mapped(scale.image, low, high, range, samples, one),
        mapped(scale.image, also_low, also_high, range, samples, other),
    ensures
        one == other,
{
    lemma_extreme_once(scale.answer, true, scale.zero, samples, samples.len(), low, also_low);
    lemma_extreme_once(scale.answer, false, scale.one, samples, samples.len(), high, also_high);
    assert forall|i: int| 0 <= i < one.len() implies one[i] == other[i] by {
        assert((scale.image)(low, high, samples[i], range, one[i]));
        assert((scale.image)(low, high, samples[i], range, other[i]));
    }
    assert(one =~= other);
}

/// The contract of `rescale` leaves nothing open: where answers and images
/// are single, a grid has at most one rescaled form.
pub proof fn lemma_rescaled_once<T>(
    scale: Scale<T>,
    range: RescaleRange<T>,
    before: Grid<T>,
    first: Grid<T>,
    second: Grid<T>,
)
    requires
        single_answer(scale.answer),
        single_image(scale.image),
        rescaled(scale, range, before, first),
        rescaled(scale, range, before, second),
    ensures
        first == second,
{
    let (low, high) = choose|low: T, high: T|
        observed(scale, before.samples, low, high) && #[trigger] mapped(
            scale.image,
            low,
            high,
            range,
            before.samples,
            first.samples,
        );
    let (also_low, also_high) = choose|low: T, high: T|
        observed(scale, before.samples, low, high) && #[trigger] mapped(
            scale.image,
            low,
            high,
            range,
            before.samples,
            second.samples,
        );
    lemma_mapped_once(
        scale,
        range,
        before.samples,
        low,
        high,
        also_low,
        also_high,
        first.samples,
        second.samples,
    );
}

/// The contract of `channel_wise_rescale` leaves nothing open: where answers
/// and images are single, a grid has at most one form rescaled by channel.
pub proof fn lemma_rescaled_by_channel_once<T>(
    scale: Scale<T>,
    range: RescaleRange<T>,
    before: Grid<T>,
    first: Grid<T>,
    second: Grid<T>,
)
    requires
        before.wf(),
        single_answer(scale.answer),
        single_image(scale.image),
        rescaled_by_channel(scale, range, before, first),
        rescaled_by_channel(scale, range, before, second),
    ensures
        first == second,
{
    assert forall|i: int| 0 <= i < first.samples.len() implies first.samples[i]
        == second.samples[i] by {
        let (pixel, c) = lemma_component_onto(before, i);
        assert(channel_rescaled(scale, range, before, first, c));
        assert(channel_rescaled(scale, range, before, second, c));
        let (low, high) = choose|low: T, high: T|
            observed(scale, before.channel(c), low, high) && #[trigger] mapped(
                scale.image,
                low,
                high,
                range,
                before.channel(c),
                first.channel(c),
            );
        let (also_low, also_high) = choose|low: T, high: T|
            observed(scale, before.channel(c), low, high) && #[trigger] mapped(
                scale.image,
                low,
                high,
                range,
                before.channel(c),
                second.channel(c),
            );
        lemma_mapped_once(
            scale,
            range,
            before.channel(c),
            low,
            high,
            also_low,
            also_high,
            first.channel(c),
            second.channel(c),
        );
        assert(first.channel(c)[pixel] == first.samples[i]);
        assert(second.channel(c)[pixel] == second.samples[i]);
    }
    assert(first.samples =~= second.samples);
}

/// An arithmetic whose operations each have one outcome gives single
/// answers and single images.
pub proof fn lemma_deterministic_scale<
    T,
    A: Fn(T, T) -> T,
    S: Fn(T, T) -> T,
    M: Fn(T, T) -> T,
    D: Fn(T, T) -> T,
    L: Fn(T, T) -> bool,
>(arithmetic: Arithmetic<T, A, S, M, D, L>)
    requires
        arithmetic.deterministic(),
    ensures
        single_answer(scale_of(arithmetic).answer),
        single_image(scale_of(arithmetic).image),
{
    let answer = scale_of(arithmetic).answer;
    let image = scale_of(arithmetic).image;
    assert forall|a: T, b: T, one: bool, other: bool|
        #[trigger] answer(a, b, one) && #[trigger] answer(a, b, other) implies one == other by {
        assert(arithmetic.below.ensures((a, b), one));
        assert(arithmetic.below.ensures((a, b), other));
    }
    assert forall|low: T, high: T, value: T, range: RescaleRange<T>, one: T, other: T|
        #[trigger] image(low, high, value, range, one) && #[trigger] image(
            low,
            high,
            value,
            range,
            other,
        ) implies one == other by {
        lemma_rescales_once(arithmetic, low, high, value, range, one, other);
    }
}

/// With operations that each have one outcome, a value has one image.
proof fn lemma_rescales_once<
    T,
    A: Fn(T, T) -> T,
    S: Fn(T, T) -> T,
    M: Fn(T, T) -> T,
    D: Fn(T, T) -> T,
    L: Fn(T, T) -> bool,
>(
    arithmetic: Arithmetic<T, A, S, M, D, L>,
    min: T,
    max: T,
    value: T,
    range: RescaleRange<T>,
    one: T,
    other: T,
)
    requires
        arithmetic.deterministic(),
        rescales(arithmetic, min, max, value, range, one),
        rescales(arithmetic, min, max, value, range, other),
    ensures
        one == other,
{
    let lower = range.lower(arithmetic.zero);
    let upper = range.upper(arithmetic.one);
    let wide = choose|wide: bool| #[trigger]
        arithmetic.spans(min, max, wide) && (if wide {
            arithmetic.affine(min, max, value, lower, upper, one)
        } else {
            one == lower
        });
    let again = choose|wide: bool| #[trigger]
        arithmetic.spans(min, max, wide) && (if wide {
            arithmetic.affine(min, max, value, lower, upper, other)
        } else {
            other == lower
        });
    let forward = choose|forward: bool| #[trigger]
        arithmetic.below.ensures((min, max), forward) && (if forward {
            wide
        } else {
            arithmetic.below.ensures((max, min), wide)
        });
    let also_forward = choose|forward: bool| #[trigger]
        arithmetic.below.ensures((min, max), forward) && (if forward {
            again
        } else {
            arithmetic.below.ensures((max, min), again)
        });
    assert(forward == also_forward);
    assert(wide == again);
    if wide {
        lemma_affine_once(arithmetic, min, max, value, lower, upper, one, other);
    }
}

/// With operations that each have one outcome, the affine map has one value.
proof fn lemma_affine_once<
    T,
    A: Fn(T, T) -> T,
    S: Fn(T, T) -> T,
    M: Fn(T, T) -> T,
    D: Fn(T, T) -> T,
    L: Fn(T, T) -> bool,
>(
    arithmetic: Arithmetic<T, A, S, M, D, L>,
    min: T,
    max: T,
    value: T,
    lower: T,
    upper: T,
    one: T,
    other: T,
)
    requires
        arithmetic.deterministic(),
        arithmetic.affine(min, max, value, lower, upper, one),
        arithmetic.affine(min, max, value, lower, upper, other),
    ensures
        one == other,
{
}

/// The map from the range `low..high` onto the range from zero to one and
/// the map back are inverse on `samples`: every image under the first lies
/// between zero and one, and its image under the second is the sample.
pub open spec fn inverts<T>(scale: Scale<T>, samples: Seq<T>, low: T, high: T) -> bool {
    forall|i: int, there: T| #![trigger (scale.image)(low, high, samples[i], RescaleRange::Max, there)]
        0 <= i < samples.len() && (scale.image)(low, high, samples[i], RescaleRange::Max, there)
            ==> {
            &&& forall|verdict: bool| #[trigger] (scale.answer)(there, scale.zero, verdict) ==> !verdict
            &&& forall|verdict: bool| #[trigger] (scale.answer)(scale.one, there, verdict) ==> !verdict
            &&& forall|back: T| #[trigger]
                (scale.image)(scale.zero, scale.one, there, RescaleRange::Custom(low, high), back)
                    ==> back == samples[i]
        }
}

/// Rescaling onto the range from zero to one and then back onto the observed
/// range returns the samples, in an arithmetic where the two maps are
/// inverse: if `low` and `high` are the observed range of `before`,
/// `between` is `before` rescaled onto the range from zero to one, and
/// `after` is `between` rescaled onto the range from `low` to `high`, then
/// `after` is `before`.
pub proof fn lemma_rescale_round_trip<T>(
    scale: Scale<T>,
    before: Grid<T>,
    between: Grid<T>,
    after: Grid<T>,
    low: T,
    high: T,
)
    requires
        single_answer(scale.answer),
        observed(scale, before.samples, low, high),
        inverts(scale, before.samples, low, high),
        rescaled(scale, RescaleRange::Max, before, between),
        rescaled(scale, RescaleRange::Custom(low, high), between, after),
    ensures
        after == before,
{
    let count = before.samples.len();
    let (first_low, first_high) = choose|first_low: T, first_high: T|
        observed(scale, before.samples, first_low, first_high) && #[trigger] mapped(
            scale.image,
            first_low,
            first_high,
            RescaleRange::Max,
            before.samples,
            between.samples,
        );
    lemma_extreme_once(scale.answer, true, scale.zero, before.samples, count, low, first_low);
    lemma_extreme_once(scale.answer, false, scale.one, before.samples, count, high, first_high);
    let (second_low, second_high) = choose|second_low: T, second_high: T|
        observed(scale, between.samples, second_low, second_high) && #[trigger] mapped(
            scale.image,
            second_low,
            second_high,
            RescaleRange::Custom(low, high),
            between.samples,
            after.samples,
        );
    assert forall|i: int| 0 <= i < count implies (scale.image)(
        low,
        high,
        before.samples[i],
        RescaleRange::Max,
        #[trigger] between.samples[i],
    ) by {}
    assert forall|i: int, verdict: bool|
        0 <= i < count && #[trigger] replaces(
            scale.answer,
            true,
            between.samples[i],
            scale.zero,
            verdict,
        ) implies !verdict by {
        assert((scale.image)(low, high, before.samples[i], RescaleRange::Max, between.samples[i]));
        assert((scale.answer)(between.samples[i], scale.zero, verdict));
    }
    assert forall|i: int, verdict: bool|
        0 <= i < count && #[trigger] replaces(
            scale.answer,
            false,
            between.samples[i],
            scale.one,
            verdict,
        ) implies !verdict by {
        assert((scale.image)(low, high, before.samples[i], RescaleRange::Max, between.samples[i]));
        assert((scale.answer)(scale.one, between.samples[i], verdict));
    }
    lemma_extreme_stays(scale.answer, true, scale.zero, between.samples, count, second_low);
    lemma_extreme_stays(scale.answer, false, scale.one, between.samples, count, second_high);
    assert forall|i: int| 0 <= i < count implies after.samples[i] == before.samples[i] by {
        assert((scale.image)(low, high, before.samples[i], RescaleRange::Max, between.samples[i]));
        assert((scale.image)(
            scale.zero,
            scale.one,
            between.samples[i],
            RescaleRange::Custom(low, high),
            after.samples[i],
        ));
    }
    assert(after.samples =~= before.samples);
}

} // verus!
