//! The sample grid that the filters work on.

use vstd::prelude::*;

verus! {

/// Mathematical model of a sample grid.
///
/// Samples are stored row by row; within a row pixel by pixel; within a
/// pixel channel by channel.
pub struct Grid<T> {
    pub width: nat,
    pub height: nat,
    pub channels: nat,
    pub samples: Seq<T>,
}

impl<T> Grid<T> {
    /// Number of pixels.
    pub open spec fn pixels(self) -> nat {
        self.width * self.height
    }

    /// There is exactly one sample per coordinate.
    pub open spec fn wf(self) -> bool {
        self.samples.len() == self.pixels() * self.channels
    }

    /// `(x, y, c)` names a sample of the grid.
    pub open spec fn contains(self, x: int, y: int, c: int) -> bool {
        &&& 0 <= x < self.width
        &&& 0 <= y < self.height
        &&& 0 <= c < self.channels
    }

    /// Position of the pixel `(x, y)` in row-by-row order.
    pub open spec fn pixel(self, x: int, y: int) -> int {
        y * self.width + x
    }

    /// Position of the sample `(x, y, c)` in `samples`.
    pub open spec fn offset(self, x: int, y: int, c: int) -> int {
        self.pixel(x, y) * self.channels + c
    }

    /// The sample at `(x, y, c)`.
    pub open spec fn at(self, x: int, y: int, c: int) -> T {
        self.samples[self.offset(x, y, c)]
    }

    /// The sample of channel `c` of the pixel at position `pixel`.
    pub open spec fn component(self, pixel: int, c: int) -> T {
        self.samples[pixel * self.channels + c]
    }

    /// The samples of channel `c`, pixel by pixel.
    pub open spec fn channel(self, c: int) -> Seq<T> {
        Seq::new(self.pixels(), |pixel: int| self.component(pixel, c))
    }

    /// Same dimensions, whatever the samples.
    pub open spec fn same_shape(self, other: Grid<T>) -> bool {
        &&& self.width == other.width
        &&& self.height == other.height
        &&& self.channels == other.channels
        &&& self.samples.len() == other.samples.len()
    }
}

/// Every coordinate of a grid has a position inside `samples`.
pub proof fn lemma_offset_in_range<T>(grid: Grid<T>, x: int, y: int, c: int)
    requires
        grid.wf(),
        grid.contains(x, y, c),
    ensures
        0 <= grid.pixel(x, y) < grid.pixels(),
        0 <= grid.offset(x, y, c) < grid.samples.len(),
{
    let w = grid.width as int;
    let h = grid.height as int;
    let ch = grid.channels as int;
    let p = grid.pixel(x, y);
    assert(0 <= y * w && y * w + w <= h * w) by (nonlinear_arith)
        requires
            0 <= y < h,
            0 <= w,
    ;
    assert(h * w == w * h) by (nonlinear_arith);
    assert(0 <= p * ch && p * ch + ch <= (w * h) * ch) by (nonlinear_arith)
        requires
            0 <= p < w * h,
            0 <= ch,
    ;
}

/// Every channel of every pixel has a position inside `samples`, and no two
/// of them share one.
pub proof fn lemma_component_positions<T>(grid: Grid<T>, pixel: int, c: int, other: int, oc: int)
    requires
        grid.wf(),
        0 <= pixel < grid.pixels(),
        0 <= c < grid.channels,
        0 <= other < grid.pixels(),
        0 <= oc < grid.channels,
    ensures
        0 <= pixel * grid.channels + c < grid.samples.len(),
        pixel * grid.channels + c == other * grid.channels + oc ==> pixel == other && c == oc,
{
    let ch = grid.channels as int;
    let n = grid.pixels() as int;
    assert(0 <= pixel * ch && pixel * ch + ch <= n * ch) by (nonlinear_arith)
        requires
            0 <= pixel < n,
            0 <= ch,
    ;
    if pixel * ch + c == other * ch + oc {
        assert(pixel == other) by (nonlinear_arith)
            requires
                pixel * ch + c == other * ch + oc,
                0 <= c < ch,
                0 <= oc < ch,
        ;
    }
}

/// Every position inside `samples` is a channel of a pixel.
pub proof fn lemma_component_onto<T>(grid: Grid<T>, position: int) -> (component: (int, int))
    requires
        grid.wf(),
        0 <= position < grid.samples.len(),
    ensures
        0 <= component.0 < grid.pixels(),
        0 <= component.1 < grid.channels,
        component.0 * grid.channels + component.1 == position,
{
    let ch = grid.channels as int;
    let n = grid.pixels() as int;
    assert(ch > 0) by (nonlinear_arith)
        requires
            0 <= position < n * ch,
            0 <= n,
            0 <= ch,
    ;
    let pixel = position / ch;
    let c = position % ch;
    vstd::arithmetic::div_mod::lemma_fundamental_div_mod(position, ch);
    vstd::arithmetic::div_mod::lemma_mod_bound(position, ch);
    assert(0 <= pixel < n) by (nonlinear_arith)
        requires
            ch * pixel + c == position,
            0 <= c < ch,
            0 <= position < n * ch,
    ;
    assert(pixel * ch == ch * pixel) by (nonlinear_arith);
    (pixel, c)
}

/// Distinct coordinates have distinct positions.
pub proof fn lemma_offset_injective<T>(
    grid: Grid<T>,
    x1: int,
    y1: int,
    c1: int,
    x2: int,
    y2: int,
    c2: int,
)
    requires
        grid.contains(x1, y1, c1),
        grid.contains(x2, y2, c2),
        grid.offset(x1, y1, c1) == grid.offset(x2, y2, c2),
    ensures
        x1 == x2,
        y1 == y2,
        c1 == c2,
{
    let w = grid.width as int;
    let ch = grid.channels as int;
    let first = grid.pixel(x1, y1);
    let second = grid.pixel(x2, y2);
    assert(first == second) by (nonlinear_arith)
        requires
            first * ch + c1 == second * ch + c2,
            0 <= c1 < ch,
            0 <= c2 < ch,
    ;
    assert(y1 == y2) by (nonlinear_arith)
        requires
            y1 * w + x1 == y2 * w + x2,
            0 <= x1 < w,
            0 <= x2 < w,
    ;
}

/// Every position inside `samples` belongs to a coordinate of the grid.
pub proof fn lemma_offset_onto<T>(grid: Grid<T>, position: int) -> (coordinate: (int, int, int))
    requires
        grid.wf(),
        0 <= position < grid.samples.len(),
    ensures
        grid.contains(coordinate.0, coordinate.1, coordinate.2),
        grid.offset(coordinate.0, coordinate.1, coordinate.2) == position,
{
    let w = grid.width as int;
    let h = grid.height as int;
    let ch = grid.channels as int;
    assert(ch > 0 && w > 0) by (nonlinear_arith)
        requires
            0 <= position < (w * h) * ch,
            0 <= w,
            0 <= h,
            0 <= ch,
    ;
    let p = position / ch;
    let c = position % ch;
    vstd::arithmetic::div_mod::lemma_fundamental_div_mod(position, ch);
    vstd::arithmetic::div_mod::lemma_mod_bound(position, ch);
    assert(0 <= p < w * h) by (nonlinear_arith)
        requires
            ch * p + c == position,
            0 <= c < ch,
            0 <= position < (w * h) * ch,
    ;
    let y = p / w;
    let x = p % w;
    vstd::arithmetic::div_mod::lemma_fundamental_div_mod(p, w);
    vstd::arithmetic::div_mod::lemma_mod_bound(p, w);
    assert(0 <= y < h) by (nonlinear_arith)
        requires
            w * y + x == p,
            0 <= x < w,
            0 <= p < w * h,
    ;
    assert(y * w + x == p) by (nonlinear_arith)
        requires
            w * y + x == p,
    ;
    assert(p * ch + c == position) by (nonlinear_arith)
        requires
            ch * p + c == position,
    ;
    (x, y, c)
}

/// Two well-formed grids of one shape that agree at every coordinate are equal.
pub proof fn lemma_grids_equal<T>(a: Grid<T>, b: Grid<T>)
    requires
        a.wf(),
        a.same_shape(b),
        forall|x: int, y: int, c: int| a.contains(x, y, c) ==> a.at(x, y, c) == b.at(x, y, c),
    ensures
        a == b,
{
    assert forall|i: int| 0 <= i < a.samples.len() implies a.samples[i] == b.samples[i] by {
        let (x, y, c) = lemma_offset_onto(a, i);
        assert(a.at(x, y, c) == b.at(x, y, c));
        assert(b.offset(x, y, c) == a.offset(x, y, c));
    }
    assert(a.samples =~= b.samples);
}

/// A `width` by `height` grid with `channels` samples per pixel.
pub struct Buffer<T> {
    width: u32,
    height: u32,
    channels: usize,
    samples: Vec<T>,
}

impl<T> View for Buffer<T> {
    type V = Grid<T>;

    closed spec fn view(&self) -> Grid<T> {
        Grid {
            width: self.width as nat,
            height: self.height as nat,
            channels: self.channels as nat,
            samples: self.samples@,
        }
    }
}

impl<T: Copy> Buffer<T> {
    /// Wraps `samples` as a grid, or returns `None` when their number is not
    /// `width * height * channels`.
    pub fn new(width: u32, height: u32, channels: usize, samples: Vec<T>) -> (buffer: Option<Self>)
        ensures
            buffer.is_some() <==> samples.len() == width * height * channels,
            buffer matches Some(b) ==> b@ == (Grid {
                width: width as nat,
                height: height as nat,
                channels: channels as nat,
                samples: samples@,
            }) && b@.wf(),
    {
        assert(width * height <= 0xffff_ffff * 0xffff_ffff) by (nonlinear_arith)
            requires
                width <= 0xffff_ffff,
                height <= 0xffff_ffff,
        ;
        let pixels: u128 = width as u128 * height as u128;
        assert(pixels * channels <= (0xffff_ffff * 0xffff_ffff) * 0xffff_ffff_ffff_ffff)
            by (nonlinear_arith)
            requires
                0 <= pixels <= 0xffff_ffff * 0xffff_ffff,
                0 <= channels <= 0xffff_ffff_ffff_ffff,
        ;
        let expected: u128 = pixels * channels as u128;
        if samples.len() as u128 == expected {
            Some(Self { width, height, channels, samples })
        } else {
            None
        }
    }

    /// Number of columns.
    pub fn width(&self) -> (width: u32)
        ensures
            width == self@.width,
    {
        self.width
    }

    /// Number of rows.
    pub fn height(&self) -> (height: u32)
        ensures
            height == self@.height,
    {
        self.height
    }

    /// Number of samples per pixel.
    pub fn channels(&self) -> (channels: usize)
        ensures
            channels == self@.channels,
    {
        self.channels
    }

    /// Number of samples.
    pub fn len(&self) -> (len: usize)
        ensures
            len == self@.samples.len(),
    {
        self.samples.len()
    }

    /// Number of pixels.
    pub fn pixels(&self) -> (pixels: usize)
        requires
            self@.wf(),
            self@.channels > 0,
        ensures
            pixels == self@.pixels(),
    {
        proof {
            let n = self@.pixels() as int;
            assert(n <= n * self.channels) by (nonlinear_arith)
                requires
                    0 <= n,
                    1 <= self.channels,
            ;
            assert(self.samples.len() <= usize::MAX);
        }
        self.width as usize * self.height as usize
    }

    /// Position of channel `c` of the pixel at position `pixel`.
    pub fn component_position(&self, pixel: usize, c: usize) -> (position: usize)
        requires
            self@.wf(),
            pixel < self@.pixels(),
            c < self@.channels,
        ensures
            position == pixel * self@.channels + c,
            position < self@.samples.len(),
    {
        proof {
            lemma_component_positions(self@, pixel as int, c as int, pixel as int, c as int);
            assert(0 <= pixel * self.channels) by (nonlinear_arith)
                requires
                    0 <= pixel,
                    0 <= self.channels,
            ;
            assert(self.samples.len() <= usize::MAX);
        }
        pixel * self.channels + c
    }

    /// The sample at `position` in row-by-row order.
    pub fn sample(&self, position: usize) -> (sample: T)
        requires
            position < self@.samples.len(),
        ensures
            sample == self@.samples[position as int],
    {
        self.samples[position]
    }

    /// Replaces the sample at `position` in row-by-row order.
    pub fn put(&mut self, position: usize, sample: T)
        requires
            position < old(self)@.samples.len(),
        ensures
            final(self)@ == (Grid {
                samples: old(self)@.samples.update(position as int, sample),
                ..old(self)@
            }),
    {
        self.samples.set(position, sample);
    }

    /// Position of the sample `(x, y, c)` in the sample vector.
    pub fn offset(&self, x: u32, y: u32, c: usize) -> (offset: usize)
        requires
            self@.wf(),
            self@.contains(x as int, y as int, c as int),
        ensures
            offset == self@.offset(x as int, y as int, c as int),
            offset < self@.samples.len(),
    {
        proof {
            lemma_offset_in_range(self@, x as int, y as int, c as int);
            let p = self@.pixel(x as int, y as int);
            assert(0 <= y * self.width <= p);
            assert(0 <= p * self.channels <= p * self.channels + c) by (nonlinear_arith)
                requires
                    0 <= p,
                    0 <= self.channels,
                    0 <= c,
            ;
            assert(p <= p * self.channels) by (nonlinear_arith)
                requires
                    0 <= p,
                    1 <= self.channels,
            ;
            assert(p * self.channels + c < self.samples.len());
            assert(self.samples.len() <= usize::MAX);
        }
        (y as usize * self.width as usize + x as usize) * self.channels + c
    }

    /// The sample at `(x, y, c)`.
    pub fn get(&self, x: u32, y: u32, c: usize) -> (sample: T)
        requires
            self@.wf(),
            self@.contains(x as int, y as int, c as int),
        ensures
            sample == self@.at(x as int, y as int, c as int),
    {
        let offset = self.offset(x, y, c);
        self.samples[offset]
    }

    /// Replaces the sample at `(x, y, c)`.
    pub fn set(&mut self, x: u32, y: u32, c: usize, sample: T)
        requires
            old(self)@.wf(),
            old(self)@.contains(x as int, y as int, c as int),
        ensures
            final(self)@ == (Grid {
                samples: old(self)@.samples.update(
                    old(self)@.offset(x as int, y as int, c as int),
                    sample,
                ),
                ..old(self)@
            }),
            final(self)@.wf(),
    {
        let offset = self.offset(x, y, c);
        self.samples.set(offset, sample);
    }

    /// The samples, row by row.
    pub fn samples(&self) -> (samples: &Vec<T>)
        ensures
            samples@ == self@.samples,
    {
        &self.samples
    }

    /// Gives the samples back, row by row.
    pub fn into_samples(self) -> (samples: Vec<T>)
        ensures
            samples@ == self@.samples,
    {
        self.samples
    }
}

} // verus!
