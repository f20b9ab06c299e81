//! Adding a residual to a picture.
//!
//! The residual is usually smaller than the picture. Each residual value is interpolated between
//! the four nearest residual pixels when it is needed, so no residual of the picture's size is
//! ever built.
use crate::geometry::shrunk_size_spec;
use crate::sample::{
    byte_is, capped, capped_is, clamped, clamped_is, convert_from_0_1_to_neg1_1,
    convert_from_neg1_1_to_0_1, difference_is, integer, integer_is, product_is, quotient_is,
    saturated_byte, saturated_byte_is, saturated_word, saturated_word_is, signed_is, sum_is, total,
    truncated, truncated_is, unsigned_is, word_is, Sample,
};
use vstd::arithmetic::div_mod::{lemma_fundamental_div_mod, lemma_fundamental_div_mod_converse};
use vstd::prelude::*;

verus! {

/// A picture of interleaved real samples: row by row, pixel by pixel, channel by channel.
#[derive(Debug)]
pub struct FloatImage<T> {
    pub width: u32,
    pub height: u32,
    pub channels: usize,
    pub samples: Vec<T>,
}

impl<T> FloatImage<T> {
    /// There is a sample for every channel of every pixel. More may follow; they are not read.
    pub open spec fn wf(self) -> bool {
        self.width * self.height * self.channels <= self.samples@.len()
    }

    /// The sample of channel `c` in the pixel of column `x` and row `y`.
    pub open spec fn at(self, x: int, y: int, c: int) -> T {
        self.samples@[(y * self.width + x) * self.channels + c]
    }
}

/// `r` is `a * (1 - w) + b * w`.
pub open spec fn mixed_is<T: Sample>(a: T, b: T, w: T, r: T) -> bool {
    exists|one: T, rest: T, left: T, right: T|
        {
            &&& #[trigger] byte_is(1, one)
            &&& #[trigger] difference_is(one, w, rest)
            &&& #[trigger] product_is(a, rest, left)
            &&& #[trigger] product_is(b, w, right)
            &&& sum_is(left, right, r)
        }
}

fn mixed<T: Sample>(a: T, b: T, w: T) -> (r: T)
    requires
        total::<T>(),
    ensures
        mixed_is(a, b, w, r),
{
    let one = T::from(1u8);
    let rest = one - w;
    let left = a * rest;
    let right = b * w;
    let r = left + right;
    assert(byte_is(1, one) && difference_is(one, w, rest) && product_is(a, rest, left)
        && product_is(b, w, right));
    r
}

/// Where a position along one axis of the residual falls: the pixels before and after it, and the
/// weight of the one after.
#[derive(Debug)]
pub struct Tap<T> {
    pub low: u32,
    pub high: u32,
    pub weight: T,
}

/// `tap` is where `position` falls among `n` pixels: the position is held between the first and
/// the last pixel, the pixel before it is its integer part, and the weight is what is left.
pub open spec fn tap_is<T: Sample>(n: u32, position: T, tap: Tap<T>) -> bool {
    &&& tap.low < n
    &&& tap.high == (if tap.low + 1 < n {
        tap.low + 1
    } else {
        n - 1
    })
    &&& exists|zero: T, last: T, held: T, whole: nat, floor: T|
        {
            &&& #[trigger] byte_is(0, zero)
            &&& #[trigger] integer_is((n - 1) as nat, last)
            &&& #[trigger] clamped_is(position, zero, last, held)
            &&& #[trigger] truncated_is(held, 1, whole)
            &&& tap.low == (if whole < n {
                whole as int
            } else {
                n - 1
            })
            &&& #[trigger] integer_is(tap.low as nat, floor)
            &&& difference_is(held, floor, tap.weight)
        }
}

fn tap<T: Sample>(n: u32, position: T) -> (tap: Tap<T>)
    requires
        total::<T>(),
        n > 0,
    ensures
        tap_is(n, position, tap),
{
    let zero = T::from(0u8);
    let last = integer::<T>((n - 1) as usize);
    let held = clamped(position, zero, last);
    let whole: u64 = truncated(held, 1);
    let low: u32 = if whole < n as u64 {
        whole as u32
    } else {
        n - 1
    };
    let high: u32 = if low < n - 1 {
        low + 1
    } else {
        n - 1
    };
    let floor = integer::<T>(low as usize);
    let weight = held - floor;
    let tap = Tap { low, high, weight };
    assert(byte_is(0, zero) && integer_is((n - 1) as nat, last) && clamped_is(
        position,
        zero,
        last,
        held,
    ) && truncated_is(held, 1, whole as nat) && integer_is(tap.low as nat, floor));
    assert(difference_is(held, floor, tap.weight));
    tap
}

/// `r` is `n / len`: the residual pixels that one picture pixel spans along an axis.
pub open spec fn ratio_is<T: Sample>(n: u32, len: u32, r: T) -> bool {
    exists|a: T, b: T|
        {
            &&& #[trigger] integer_is(n as nat, a)
            &&& #[trigger] integer_is(len as nat, b)
            &&& quotient_is(a, b, r)
        }
}

/// `r` is `0.5`.
pub open spec fn half_is<T: Sample>(r: T) -> bool {
    exists|one: T, two: T|
        {
            &&& #[trigger] byte_is(1, one)
            &&& #[trigger] byte_is(2, two)
            &&& quotient_is(one, two, r)
        }
}

/// `r` is `0.5 * scale - 0.5`: where the centre of the first picture pixel falls.
pub open spec fn start_is<T: Sample>(scale: T, r: T) -> bool {
    exists|half: T, p: T|
        {
            &&& #[trigger] half_is(half)
            &&& #[trigger] product_is(half, scale, p)
            &&& difference_is(p, half, r)
        }
}

/// Position `i` is the one before it plus `step`.
pub open spec fn advances<T: Sample>(positions: Seq<T>, step: T, i: int) -> bool {
    sum_is(positions[i - 1], step, positions[i])
}

/// `positions` begin at `start` and advance by `step`.
pub open spec fn walk_is<T: Sample>(start: T, step: T, positions: Seq<T>) -> bool {
    &&& positions.len() > 0 ==> positions[0] == start
    &&& forall|i: int| 0 < i < positions.len() ==> #[trigger] advances(positions, step, i)
}

/// `taps` are where the `len` pixels along an axis of the picture fall among the `n` pixels of
/// the residual.
pub open spec fn axis_is<T: Sample>(n: u32, len: u32, taps: Seq<Tap<T>>) -> bool {
    &&& taps.len() == len
    &&& exists|scale: T, start: T, positions: Seq<T>|
        {
            &&& #[trigger] ratio_is(n, len, scale)
            &&& #[trigger] start_is(scale, start)
            &&& positions.len() == len
            &&& #[trigger] walk_is(start, scale, positions)
            &&& forall|i: int|
                0 <= i < len ==> #[trigger] tap_is(n, positions[i], taps[i])
        }
}

fn axis<T: Sample>(n: u32, len: u32) -> (taps: Vec<Tap<T>>)
    requires
        total::<T>(),
        len > 0 ==> n > 0,
    ensures
        axis_is(n, len, taps@),
        forall|i: int| 0 <= i < len ==> (#[trigger] taps@[i]).low < n && taps@[i].high < n,
{
    let a = integer::<T>(n as usize);
    let b = integer::<T>(len as usize);
    let scale = a / b;
    assert(integer_is(n as nat, a) && integer_is(len as nat, b));
    let one = T::from(1u8);
    let two = T::from(2u8);
    let half = one / two;
    assert(byte_is(1, one) && byte_is(2, two));
    let p = half * scale;
    let start = p - half;
    assert(half_is(half) && product_is(half, scale, p));
    let mut taps: Vec<Tap<T>> = Vec::new();
    let mut position = start;
    let ghost mut positions: Seq<T> = Seq::empty();
    let mut i: u32 = 0;
    while i < len
        invariant
            total::<T>(),
            len > 0 ==> n > 0,
            i <= len,
            taps@.len() == i,
            positions.len() == i,
            i == 0 ==> position == start,
            i > 0 ==> sum_is(positions[i - 1], scale, position),
            walk_is(start, scale, positions),
            forall|k: int| 0 <= k < i ==> #[trigger] tap_is(n, positions[k], taps@[k]),
        decreases len - i,
    {
        let t = tap(n, position);
        let ghost before = positions;
        let ghost old_taps = taps@;
        proof {
            positions = positions.push(position);
        }
        taps.push(t);
        proof {
            assert forall|k: int| 0 < k < positions.len() implies #[trigger] advances(
                positions,
                scale,
                k,
            ) by {
                if k < i {
                    assert(advances(before, scale, k));
                }
            }
            assert forall|k: int| 0 <= k < i + 1 implies #[trigger] tap_is(
                n,
                positions[k],
                taps@[k],
            ) by {
                if k < i {
                    assert(tap_is(n, before[k], old_taps[k]));
                }
            }
        }
        position = position + scale;
        i = i + 1;
    }
    assert(ratio_is(n, len, scale) && start_is(scale, start) && walk_is(start, scale, positions));
    assert forall|k: int| 0 <= k < len implies (#[trigger] taps@[k]).low < n && taps@[k].high
        < n by {
        assert(tap_is(n, positions[k], taps@[k]));
    }
    taps
}

/// The index of a sample stays below the number of samples.
proof fn lemma_index_bound(x: int, y: int, c: int, width: int, height: int, channels: int)
    requires
        0 <= x < width,
        0 <= y < height,
        0 <= c < channels,
    ensures
        0 <= y * width + x < width * height,
        0 <= (y * width + x) * channels + c < width * height * channels,
{
    assert(0 <= y * width + x <= width * height - 1) by (nonlinear_arith)
        requires
            0 <= x < width,
            0 <= y < height,
    ;
    let p = y * width + x;
    let n = width * height;
    assert(0 <= p * channels + c < n * channels) by (nonlinear_arith)
        requires
            0 <= p <= n - 1,
            0 <= c < channels,
    ;
}

/// `r` is the residual in channel `c` where a picture pixel falls at `col` and `row`: the four
/// neighbours mixed along the rows, then between them, and taken to [-1, 1].
pub open spec fn interpolated_is<T: Sample>(
    residual: FloatImage<T>,
    col: Tap<T>,
    row: Tap<T>,
    c: int,
    r: T,
) -> bool {
    exists|top: T, bottom: T, mid: T|
        {
            &&& #[trigger] mixed_is(
                residual.at(col.low as int, row.low as int, c),
                residual.at(col.high as int, row.low as int, c),
                col.weight,
                top,
            )
            &&& #[trigger] mixed_is(
                residual.at(col.low as int, row.high as int, c),
                residual.at(col.high as int, row.high as int, c),
                col.weight,
                bottom,
            )
            &&& #[trigger] mixed_is(top, bottom, row.weight, mid)
            &&& signed_is(mid, r)
        }
}

fn sample_at<T: Copy>(image: &FloatImage<T>, x: u32, y: u32, c: usize) -> (r: T)
    requires
        image.wf(),
        x < image.width,
        y < image.height,
        c < image.channels,
    ensures
        r == image.at(x as int, y as int, c as int),
{
    proof {
        lemma_index_bound(
            x as int,
            y as int,
            c as int,
            image.width as int,
            image.height as int,
            image.channels as int,
        );
        let p = y * image.width + x;
        assert(p * image.channels >= p) by (nonlinear_arith)
            requires
                p >= 0,
                image.channels >= 1,
        ;
        assert(y * image.width >= 0) by (nonlinear_arith);
        assert(image.samples.len() <= usize::MAX);
    }
    let p: usize = y as usize * image.width as usize + x as usize;
    image.samples[p * image.channels + c]
}

fn interpolated<T: Sample>(residual: &FloatImage<T>, col: &Tap<T>, row: &Tap<T>, c: usize) -> (r: T)
    requires
        total::<T>(),
        residual.wf(),
        col.low < residual.width,
        col.high < residual.width,
        row.low < residual.height,
        row.high < residual.height,
        c < residual.channels,
    ensures
        interpolated_is(*residual, *col, *row, c as int, r),
{
    let top = mixed(
        sample_at(residual, col.low, row.low, c),
        sample_at(residual, col.high, row.low, c),
        col.weight,
    );
    let bottom = mixed(
        sample_at(residual, col.low, row.high, c),
        sample_at(residual, col.high, row.high, c),
        col.weight,
    );
    let mid = mixed(top, bottom, row.weight);
    convert_from_0_1_to_neg1_1(mid)
}

/// Which channels a pixel has.
#[derive(Debug, Clone, Copy, PartialEq, Eq, Structural)]
pub enum Layout {
    /// Brightness.
    Luma,
    /// Brightness and opacity.
    LumaAlpha,
    /// Red, green and blue.
    Rgb,
    /// Red, green, blue and opacity.
    Rgba,
}

impl Layout {
    /// The number of samples in a pixel.
    pub open spec fn channels_spec(self) -> usize {
        match self {
            Layout::Luma => 1,
            Layout::LumaAlpha => 2,
            Layout::Rgb => 3,
            Layout::Rgba => 4,
        }
    }

    /// The number of samples in a pixel that carry colour; opacity follows them.
    pub open spec fn colors_spec(self) -> usize {
        match self {
            Layout::Luma => 1,
            Layout::LumaAlpha => 1,
            Layout::Rgb => 3,
            Layout::Rgba => 3,
        }
    }

    /// The number of samples in a pixel.
    pub fn channels(self) -> (r: usize)
        ensures
            r == self.channels_spec(),
    {
        match self {
            Layout::Luma => 1,
            Layout::LumaAlpha => 2,
            Layout::Rgb => 3,
            Layout::Rgba => 4,
        }
    }

    /// The number of samples in a pixel that carry colour; opacity follows them.
    pub fn colors(self) -> (r: usize)
        ensures
            r == self.colors_spec(),
    {
        match self {
            Layout::Luma => 1,
            Layout::LumaAlpha => 1,
            Layout::Rgb => 3,
            Layout::Rgba => 3,
        }
    }
}

/// The pixels of a picture: how many there are, and which channels they have.
#[derive(Debug, Clone, Copy, PartialEq, Eq, Structural)]
pub struct Grid {
    pub width: u32,
    pub height: u32,
    pub layout: Layout,
}

impl Grid {
    /// The number of samples.
    pub open spec fn len(self) -> int {
        self.width * self.height * self.layout.channels_spec()
    }

    /// The channel that sample `j` belongs to.
    pub open spec fn channel(self, j: int) -> int {
        j % (self.layout.channels_spec() as int)
    }

    /// The column of the pixel that sample `j` belongs to.
    pub open spec fn column(self, j: int) -> int {
        (j / (self.layout.channels_spec() as int)) % (self.width as int)
    }

    /// The row of the pixel that sample `j` belongs to.
    pub open spec fn row(self, j: int) -> int {
        (j / (self.layout.channels_spec() as int)) / (self.width as int)
    }

    /// Sample `j` is that of a colour channel of a pixel.
    pub open spec fn colored(self, j: int) -> bool {
        0 <= j < self.len() && self.channel(j) < self.layout.colors_spec()
    }
}

/// How one sample changes: a colour sample becomes what `blend` allows for it and the residual
/// interpolated there, any other sample stays.
pub open spec fn sample_changes<S, T: Sample>(
    grid: Grid,
    residual: FloatImage<T>,
    cols: Seq<Tap<T>>,
    rows: Seq<Tap<T>>,
    blend: spec_fn(S, T, S) -> bool,
    j: int,
    before: S,
    after: S,
) -> bool {
    if grid.colored(j) {
        exists|v: T|
            {
                &&& #[trigger] interpolated_is(
                    residual,
                    cols[grid.column(j)],
                    rows[grid.row(j)],
                    grid.channel(j),
                    v,
                )
                &&& blend(before, v, after)
            }
    } else {
        after == before
    }
}

/// How all samples change when a residual is spread over the pixels of `grid`. Without pixels
/// nothing changes.
pub open spec fn spread<S, T: Sample>(
    grid: Grid,
    residual: FloatImage<T>,
    blend: spec_fn(S, T, S) -> bool,
    before: Seq<S>,
    after: Seq<S>,
) -> bool {
    if grid.width == 0 || grid.height == 0 {
        after == before
    } else {
        &&& after.len() == before.len()
        &&& exists|cols: Seq<Tap<T>>, rows: Seq<Tap<T>>|
            {
                &&& #[trigger] axis_is(residual.width, grid.width, cols)
                &&& #[trigger] axis_is(residual.height, grid.height, rows)
                &&& forall|j: int|
                    0 <= j < before.len() ==> sample_changes(
                        grid,
                        residual,
                        cols,
                        rows,
                        blend,
                        j,
                        before[j],
                        #[trigger] after[j],
                    )
            }
    }
}

/// A residual that can be spread over the pixels of `grid` as it is: it has a sample for every
/// colour, is not empty where it is read, and is nowhere larger than the picture.
pub open spec fn spreadable<T>(grid: Grid, residual: FloatImage<T>) -> bool {
    &&& residual.wf()
    &&& residual.channels >= grid.layout.colors_spec()
    &&& grid.width > 0 && grid.height > 0 ==> residual.width > 0 && residual.height > 0
    &&& shrunk_size_spec(grid.width, grid.height, residual.width, residual.height) is None
}

/// A sample index taken apart again.
proof fn lemma_index_parts(grid: Grid, x: int, y: int, c: int)
    requires
        0 <= x < grid.width,
        0 <= y < grid.height,
        0 <= c < grid.layout.channels_spec(),
    ensures
        ({
            let j = (y * grid.width + x) * grid.layout.channels_spec() + c;
            &&& grid.channel(j) == c
            &&& grid.column(j) == x
            &&& grid.row(j) == y
            &&& 0 <= j < grid.len()
        }),
{
    let w = grid.width as int;
    let ch = grid.layout.channels_spec() as int;
    let p = y * w + x;
    lemma_index_bound(x, y, c, w, grid.height as int, ch);
    lemma_fundamental_div_mod_converse(p * ch + c, ch, p, c);
    lemma_fundamental_div_mod_converse(p, w, y, x);
}

/// A sample lies in a channel, a column and a row of its picture.
pub(crate) proof fn lemma_sample_place(grid: Grid, j: int)
    requires
        grid.colored(j),
    ensures
        0 <= grid.channel(j) < grid.layout.colors_spec(),
        0 <= grid.column(j) < grid.width,
        0 <= grid.row(j) < grid.height,
{
    let ch = grid.layout.channels_spec() as int;
    let w = grid.width as int;
    let p = j / ch;
    assert(w > 0) by (nonlinear_arith)
        requires
            0 <= j < w * grid.height * ch,
            w >= 0,
    ;
    lemma_fundamental_div_mod(j, ch);
    lemma_fundamental_div_mod(p, w);
    let r = j % ch;
    assert(0 <= p < w * grid.height) by (nonlinear_arith)
        requires
            j == ch * p + r,
            0 <= r < ch,
            0 <= j < w * grid.height * ch,
    ;
    let y = p / w;
    let x = p % w;
    assert(0 <= y < grid.height) by (nonlinear_arith)
        requires
            p == w * y + x,
            0 <= x < w,
            0 <= p < w * grid.height,
    ;
}

/// Replaces each colour sample by what `apply` makes of it and the residual interpolated there.
pub fn for_each_interpolated_residual<S: Copy, T: Sample, F: Fn(S, T) -> S>(
    samples: &mut Vec<S>,
    grid: Grid,
    residual: &FloatImage<T>,
    apply: F,
)
    requires
        total::<T>(),
        grid.len() <= old(samples)@.len(),
        spreadable(grid, *residual),
        forall|s: S, v: T| call_requires(apply, (s, v)),
    ensures
        spread(
            grid,
            *residual,
            |s: S, v: T, o: S| call_ensures(apply, (s, v), o),
            old(samples)@,
            final(samples)@,
        ),
{
    if grid.width == 0 || grid.height == 0 {
        return ;
    }
    let channels: usize = grid.layout.channels();
    let colors: usize = grid.layout.colors();
    let cols = axis::<T>(residual.width, grid.width);
    let rows = axis::<T>(residual.height, grid.height);
    let ghost before = samples@;
    let ghost blend = |s: S, v: T, o: S| call_ensures(apply, (s, v), o);
    let mut j: usize = 0;
    let mut y: u32 = 0;
    while y < grid.height
        invariant
            total::<T>(),
            channels == grid.layout.channels_spec(),
            colors == grid.layout.colors_spec(),
            grid.len() <= before.len(),
            samples@.len() == before.len(),
            residual.wf(),
            residual.channels >= colors,
            axis_is(residual.width, grid.width, cols@),
            axis_is(residual.height, grid.height, rows@),
            forall|i: int|
                0 <= i < grid.width ==> (#[trigger] cols@[i]).low < residual.width && cols@[i].high
                    < residual.width,
            forall|i: int|
                0 <= i < grid.height ==> (#[trigger] rows@[i]).low < residual.height
                    && rows@[i].high < residual.height,
            forall|s: S, v: T| call_requires(apply, (s, v)),
            blend == (|s: S, v: T, o: S| call_ensures(apply, (s, v), o)),
            0 <= y <= grid.height,
            j == y * grid.width * channels,
            forall|i: int|
                0 <= i < j ==> sample_changes(
                    grid,
                    *residual,
                    cols@,
                    rows@,
                    blend,
                    i,
                    before[i],
                    #[trigger] samples@[i],
                ),
            forall|i: int| j <= i < before.len() ==> #[trigger] samples@[i] == before[i],
        decreases grid.height - y,
    {
        let mut x: u32 = 0;
        while x < grid.width
            invariant
                total::<T>(),
                channels == grid.layout.channels_spec(),
                colors == grid.layout.colors_spec(),
                grid.len() <= before.len(),
                samples@.len() == before.len(),
                residual.wf(),
                residual.channels >= colors,
                cols@.len() == grid.width,
                rows@.len() == grid.height,
                forall|i: int|
                    0 <= i < grid.width ==> (#[trigger] cols@[i]).low < residual.width
                        && cols@[i].high < residual.width,
                forall|i: int|
                    0 <= i < grid.height ==> (#[trigger] rows@[i]).low < residual.height
                        && rows@[i].high < residual.height,
                forall|s: S, v: T| call_requires(apply, (s, v)),
                blend == (|s: S, v: T, o: S| call_ensures(apply, (s, v), o)),
                0 <= y < grid.height,
                0 <= x <= grid.width,
                j == (y * grid.width + x) * channels,
                forall|i: int|
                    0 <= i < j ==> sample_changes(
                        grid,
                        *residual,
                        cols@,
                        rows@,
                        blend,
                        i,
                        before[i],
                        #[trigger] samples@[i],
                    ),
                forall|i: int| j <= i < before.len() ==> #[trigger] samples@[i] == before[i],
            decreases grid.width - x,
        {
            let mut c: usize = 0;
            while c < channels
                invariant
                    total::<T>(),
                    channels == grid.layout.channels_spec(),
                    colors == grid.layout.colors_spec(),
                    grid.len() <= before.len(),
                    samples@.len() == before.len(),
                    residual.wf(),
                    residual.channels >= colors,
                    cols@.len() == grid.width,
                    rows@.len() == grid.height,
                    forall|i: int|
                        0 <= i < grid.width ==> (#[trigger] cols@[i]).low < residual.width
                            && cols@[i].high < residual.width,
                    forall|i: int|
                        0 <= i < grid.height ==> (#[trigger] rows@[i]).low < residual.height
                            && rows@[i].high < residual.height,
                    forall|s: S, v: T| call_requires(apply, (s, v)),
                    blend == (|s: S, v: T, o: S| call_ensures(apply, (s, v), o)),
                    0 <= y < grid.height,
                    0 <= x < grid.width,
                    0 <= c <= channels,
                    j == (y * grid.width + x) * channels + c,
                    forall|i: int|
                        0 <= i < j ==> sample_changes(
                            grid,
                            *residual,
                            cols@,
                            rows@,
                            blend,
                            i,
                            before[i],
                            #[trigger] samples@[i],
                        ),
                    forall|i: int| j <= i < before.len() ==> #[trigger] samples@[i] == before[i],
                decreases channels - c,
            {
                proof {
                    lemma_index_parts(grid, x as int, y as int, c as int);
                    assert(samples.len() <= usize::MAX);
                }
                if c < colors {
                    let v = interpolated(residual, &cols[x as usize], &rows[y as usize], c);
                    let s = samples[j];
                    let o = apply(s, v);
                    samples.set(j, o);
                    assert(blend(before[j as int], v, samples@[j as int]));
                }
                assert(sample_changes(
                    grid,
                    *residual,
                    cols@,
                    rows@,
                    blend,
                    j as int,
                    before[j as int],
                    samples@[j as int],
                ));
                c = c + 1;
                j = j + 1;
            }
            proof {
                assert((y * grid.width + x) * channels + channels == (y * grid.width + (x + 1))
                    * channels) by (nonlinear_arith);
            }
            x = x + 1;
        }
        proof {
            assert((y * grid.width + grid.width) == (y + 1) * grid.width) by (nonlinear_arith);
        }
        y = y + 1;
    }
    assert(j == grid.len()) by (nonlinear_arith)
        requires
            j == grid.height * grid.width * channels,
            channels == grid.layout.channels_spec(),
            grid.len() == grid.width * grid.height * grid.layout.channels_spec(),
    ;
    assert(axis_is(residual.width, grid.width, cols@) && axis_is(
        residual.height,
        grid.height,
        rows@,
    ));
}

/// `r` is the signed sample `base` with `residual` added, capped at 1 and taken back to [0, 1].
pub open spec fn shifted_is<T: Sample>(base: T, residual: T, r: T) -> bool {
    exists|sum: T, one: T, top: T|
        {
            &&& #[trigger] sum_is(base, residual, sum)
            &&& #[trigger] byte_is(1, one)
            &&& #[trigger] capped_is(sum, one, top)
            &&& unsigned_is(top, r)
        }
}

fn shifted<T: Sample>(base: T, residual: T) -> (r: T)
    requires
        total::<T>(),
    ensures
        shifted_is(base, residual, r),
{
    let sum = base + residual;
    let one = T::from(1u8);
    let top = capped(sum, one);
    assert(sum_is(base, residual, sum) && byte_is(1, one) && capped_is(sum, one, top));
    convert_from_neg1_1_to_0_1(top)
}

/// `r` is the real sample `s` with `residual` added.
pub open spec fn real_blend_is<T: Sample>(s: T, residual: T, r: T) -> bool {
    exists|base: T| #[trigger] signed_is(s, base) && shifted_is(base, residual, r)
}

/// A real sample with `residual` added.
pub fn blend_real<T: Sample>(s: T, residual: T) -> (r: T)
    requires
        total::<T>(),
    ensures
        real_blend_is(s, residual, r),
{
    let base = convert_from_0_1_to_neg1_1(s);
    shifted(base, residual)
}

/// `r` is the 8-bit sample `s` with `residual` added: taken from [0, 255] to [0, 1] and back, the
/// fraction cut off.
pub open spec fn byte_blend_is<T: Sample>(s: u8, residual: T, r: u8) -> bool {
    exists|x: T, full: T, unit: T, base: T, o: T, scaled: T|
        {
            &&& #[trigger] byte_is(s, x)
            &&& #[trigger] byte_is(u8::MAX, full)
            &&& #[trigger] quotient_is(x, full, unit)
            &&& #[trigger] signed_is(unit, base)
            &&& #[trigger] shifted_is(base, residual, o)
            &&& #[trigger] product_is(o, full, scaled)
            &&& saturated_byte_is(scaled, r)
        }
}

/// An 8-bit sample with `residual` added.
pub fn blend_byte<T: Sample>(s: u8, residual: T) -> (r: u8)
    requires
        total::<T>(),
    ensures
        byte_blend_is(s, residual, r),
{
    let x = T::from(s);
    let full = T::from(u8::MAX);
    let unit = x / full;
    let base = convert_from_0_1_to_neg1_1(unit);
    let o = shifted(base, residual);
    let scaled = o * full;
    assert(byte_is(s, x) && byte_is(u8::MAX, full) && quotient_is(x, full, unit) && product_is(
        o,
        full,
        scaled,
    ));
    saturated_byte(scaled)
}

/// `r` is the 16-bit sample `s` with `residual` added: taken from [0, 65535] to [0, 1] and back,
/// the fraction cut off.
pub open spec fn word_blend_is<T: Sample>(s: u16, residual: T, r: u16) -> bool {
    exists|x: T, full: T, unit: T, base: T, o: T, scaled: T|
        {
            &&& #[trigger] word_is(s, x)
            &&& #[trigger] word_is(u16::MAX, full)
            &&& #[trigger] quotient_is(x, full, unit)
            &&& #[trigger] signed_is(unit, base)
            &&& #[trigger] shifted_is(base, residual, o)
            &&& #[trigger] product_is(o, full, scaled)
            &&& saturated_word_is(scaled, r)
        }
}

/// A 16-bit sample with `residual` added.
pub fn blend_word<T: Sample>(s: u16, residual: T) -> (r: u16)
    requires
        total::<T>(),
    ensures
        word_blend_is(s, residual, r),
{
    let x = T::from(s);
    let full = T::from(u16::MAX);
    let unit = x / full;
    let base = convert_from_0_1_to_neg1_1(unit);
    let o = shifted(base, residual);
    let scaled = o * full;
    assert(word_is(s, x) && word_is(u16::MAX, full) && quotient_is(x, full, unit) && product_is(
        o,
        full,
        scaled,
    ));
    saturated_word(scaled)
}

/// The samples of a picture, interleaved: row by row, pixel by pixel, channel by channel.
#[derive(Debug)]
pub enum Samples<T> {
    /// 8-bit samples: 0 to 255.
    Byte(Vec<u8>),
    /// 16-bit samples: 0 to 65535.
    Word(Vec<u16>),
    /// Real samples: 0 to 1.
    Real(Vec<T>),
}

impl<T> Samples<T> {
    /// The number of samples.
    pub open spec fn len(self) -> nat {
        match self {
            Samples::Byte(v) => v@.len(),
            Samples::Word(v) => v@.len(),
            Samples::Real(v) => v@.len(),
        }
    }
}

/// A picture of any pixel format.
#[derive(Debug)]
pub struct Picture<T> {
    pub grid: Grid,
    pub samples: Samples<T>,
}

impl<T> Picture<T> {
    /// There is a sample for every channel of every pixel. More may follow; they are not touched.
    pub open spec fn wf(self) -> bool {
        self.grid.len() <= self.samples.len()
    }
}

/// `after` is the picture `before` with `residual` added.
pub open spec fn residual_applied<T: Sample>(
    before: Picture<T>,
    residual: FloatImage<T>,
    after: Picture<T>,
) -> bool {
    &&& after.grid == before.grid
    &&& match (before.samples, after.samples) {
        (Samples::Byte(s), Samples::Byte(r)) => spread(
            before.grid,
            residual,
            |s: u8, v: T, o: u8| byte_blend_is(s, v, o),
            s@,
            r@,
        ),
        (Samples::Word(s), Samples::Word(r)) => spread(
            before.grid,
            residual,
            |s: u16, v: T, o: u16| word_blend_is(s, v, o),
            s@,
            r@,
        ),
        (Samples::Real(s), Samples::Real(r)) => spread(
            before.grid,
            residual,
            |s: T, v: T, o: T| real_blend_is(s, v, o),
            s@,
            r@,
        ),
        _ => false,
    }
}

/// A change that one relation allows is allowed by a weaker one.
proof fn lemma_spread_weaken<S, T: Sample>(
    grid: Grid,
    residual: FloatImage<T>,
    strong: spec_fn(S, T, S) -> bool,
    weak: spec_fn(S, T, S) -> bool,
    before: Seq<S>,
    after: Seq<S>,
)
    requires
        spread(grid, residual, strong, before, after),
        forall|s: S, v: T, o: S| #[trigger] strong(s, v, o) ==> weak(s, v, o),
    ensures
        spread(grid, residual, weak, before, after),
{
    if grid.width > 0 && grid.height > 0 {
        let (cols, rows) = choose|cols: Seq<Tap<T>>, rows: Seq<Tap<T>>|
            {
                &&& #[trigger] axis_is(residual.width, grid.width, cols)
                &&& #[trigger] axis_is(residual.height, grid.height, rows)
                &&& forall|j: int|
                    0 <= j < before.len() ==> sample_changes(
                        grid,
                        residual,
                        cols,
                        rows,
                        strong,
                        j,
                        before[j],
                        #[trigger] after[j],
                    )
            };
        assert forall|j: int| 0 <= j < before.len() implies sample_changes(
            grid,
            residual,
            cols,
            rows,
            weak,
            j,
            before[j],
            #[trigger] after[j],
        ) by {
            assert(sample_changes(grid, residual, cols, rows, strong, j, before[j], after[j]));
        }
    }
}

/// Apply `residual` to the `input` in place.
///
/// Every colour sample is shifted by the residual interpolated at its pixel; opacity is kept. The
/// residual must have been brought to a size that fits the picture, see
/// [`crate::geometry::shrunk_size`].
pub fn apply_residual_in_place<T: Sample>(input: &mut Picture<T>, residual: &FloatImage<T>)
    requires
        total::<T>(),
        old(input).wf(),
        spreadable(old(input).grid, *residual),
    ensures
        residual_applied(*old(input), *residual, *final(input)),
        final(input).wf(),
{
    let grid = input.grid;
    let ghost before = *input;
    match &mut input.samples {
        Samples::Byte(target) => {
            let ghost old_samples = target@;
            for_each_interpolated_residual(target, grid, residual, blend_byte::<T>);
            proof {
                lemma_spread_weaken(
                    grid,
                    *residual,
                    |s: u8, v: T, o: u8| call_ensures(blend_byte::<T>, (s, v), o),
                    |s: u8, v: T, o: u8| byte_blend_is(s, v, o),
                    old_samples,
                    target@,
                );
            }
        },
        Samples::Word(target) => {
            let ghost old_samples = target@;
            for_each_interpolated_residual(target, grid, residual, blend_word::<T>);
            proof {
                lemma_spread_weaken(
                    grid,
                    *residual,
                    |s: u16, v: T, o: u16| call_ensures(blend_word::<T>, (s, v), o),
                    |s: u16, v: T, o: u16| word_blend_is(s, v, o),
                    old_samples,
                    target@,
                );
            }
        },
        Samples::Real(target) => {
            let ghost old_samples = target@;
            for_each_interpolated_residual(target, grid, residual, blend_real::<T>);
            proof {
                lemma_spread_weaken(
                    grid,
                    *residual,
                    |s: T, v: T, o: T| call_ensures(blend_real::<T>, (s, v), o),
                    |s: T, v: T, o: T| real_blend_is(s, v, o),
                    old_samples,
                    target@,
                );
            }
        },
    }
}

/// The samples that carry no colour are the same before and after.
pub open spec fn opacity_kept<S>(grid: Grid, before: Seq<S>, after: Seq<S>) -> bool {
    &&& after.len() == before.len()
    &&& forall|j: int| 0 <= j < before.len() && !grid.colored(j) ==> #[trigger] after[j] == before[j]
}

proof fn lemma_spread_keeps_opacity<S, T: Sample>(
    grid: Grid,
    residual: FloatImage<T>,
    blend: spec_fn(S, T, S) -> bool,
    before: Seq<S>,
    after: Seq<S>,
)
    requires
        spread(grid, residual, blend, before, after),
    ensures
        opacity_kept(grid, before, after),
{
}

/// Adding a residual changes colours only: the size and the format of the picture, its opacity
/// and whatever follows its last pixel stay as they were.
pub proof fn only_colors_change<T: Sample>(
    before: Picture<T>,
    residual: FloatImage<T>,
    after: Picture<T>,
)
    requires
        residual_applied(before, residual, after),
    ensures
        after.grid == before.grid,
        match (before.samples, after.samples) {
            (Samples::Byte(s), Samples::Byte(r)) => opacity_kept(before.grid, s@, r@),
            (Samples::Word(s), Samples::Word(r)) => opacity_kept(before.grid, s@, r@),
            (Samples::Real(s), Samples::Real(r)) => opacity_kept(before.grid, s@, r@),
            _ => false,
        },
{
    match (before.samples, after.samples) {
        (Samples::Byte(s), Samples::Byte(r)) => {
            lemma_spread_keeps_opacity(
                before.grid,
                residual,
                |s: u8, v: T, o: u8| byte_blend_is(s, v, o),
                s@,
                r@,
            );
        },
        (Samples::Word(s), Samples::Word(r)) => {
            lemma_spread_keeps_opacity(
                before.grid,
                residual,
                |s: u16, v: T, o: u16| word_blend_is(s, v, o),
                s@,
                r@,
            );
        },
        (Samples::Real(s), Samples::Real(r)) => {
            lemma_spread_keeps_opacity(
                before.grid,
                residual,
                |s: T, v: T, o: T| real_blend_is(s, v, o),
                s@,
                r@,
            );
        },
        _ => {},
    }
}

/// Two residuals have the same size, and the same samples in the channels that the pixels of
/// `grid` have colours for.
pub open spec fn agree_on_colors<T>(grid: Grid, a: FloatImage<T>, b: FloatImage<T>) -> bool {
    &&& a.width == b.width
    &&& a.height == b.height
    &&& forall|x: int, y: int, c: int|
        0 <= x < a.width && 0 <= y < a.height && 0 <= c < grid.layout.colors_spec()
            ==> #[trigger] a.at(x, y, c) == b.at(x, y, c)
}

proof fn lemma_spread_reads_colors<S, T: Sample>(
    grid: Grid,
    a: FloatImage<T>,
    b: FloatImage<T>,
    blend: spec_fn(S, T, S) -> bool,
    before: Seq<S>,
    after: Seq<S>,
)
    requires
        agree_on_colors(grid, a, b),
        spread(grid, a, blend, before, after),
    ensures
        spread(grid, b, blend, before, after),
{
    if grid.width > 0 && grid.height > 0 {
        let (cols, rows) = choose|cols: Seq<Tap<T>>, rows: Seq<Tap<T>>|
            {
                &&& #[trigger] axis_is(a.width, grid.width, cols)
                &&& #[trigger] axis_is(a.height, grid.height, rows)
                &&& forall|j: int|
                    0 <= j < before.len() ==> sample_changes(
                        grid,
                        a,
                        cols,
                        rows,
                        blend,
                        j,
                        before[j],
                        #[trigger] after[j],
                    )
            };
        assert forall|j: int| 0 <= j < before.len() implies sample_changes(
            grid,
            b,
            cols,
            rows,
            blend,
            j,
            before[j],
            #[trigger] after[j],
        ) by {
            assert(sample_changes(grid, a, cols, rows, blend, j, before[j], after[j]));
            if grid.colored(j) {
                lemma_sample_place(grid, j);
                let x = grid.column(j);
                let y = grid.row(j);
                let c = grid.channel(j);
                taps_are_neighbors(a.width, grid.width, cols, x);
                taps_are_neighbors(a.height, grid.height, rows, y);
                let v = choose|v: T| #[trigger]
                    interpolated_is(a, cols[x], rows[y], c, v) && blend(before[j], v, after[j]);
                let col = cols[x];
                let row = rows[y];
                assert(a.at(col.low as int, row.low as int, c) == b.at(
                    col.low as int,
                    row.low as int,
                    c,
                ));
                assert(a.at(col.high as int, row.low as int, c) == b.at(
                    col.high as int,
                    row.low as int,
                    c,
                ));
                assert(a.at(col.low as int, row.high as int, c) == b.at(
                    col.low as int,
                    row.high as int,
                    c,
                ));
                assert(a.at(col.high as int, row.high as int, c) == b.at(
                    col.high as int,
                    row.high as int,
                    c,
                ));
                assert(interpolated_is(b, cols[x], rows[y], c, v));
            }
        }
        assert(axis_is(b.width, grid.width, cols) && axis_is(b.height, grid.height, rows));
    }
}

/// Only the colours of a residual matter: residuals of the same size that agree in the channels
/// that the picture has colours for can be added with the same result. The opacity of a residual
/// is never read, nor are its green and blue where the picture has brightness only.
pub proof fn only_colors_are_read<T: Sample>(
    before: Picture<T>,
    a: FloatImage<T>,
    b: FloatImage<T>,
    after: Picture<T>,
)
    requires
        agree_on_colors(before.grid, a, b),
        residual_applied(before, a, after),
    ensures
        residual_applied(before, b, after),
{
    match (before.samples, after.samples) {
        (Samples::Byte(s), Samples::Byte(r)) => {
            let blend = |s: u8, v: T, o: u8| byte_blend_is(s, v, o);
            lemma_spread_reads_colors(before.grid, a, b, blend, s@, r@);
        },
        (Samples::Word(s), Samples::Word(r)) => {
            let blend = |s: u16, v: T, o: u16| word_blend_is(s, v, o);
            lemma_spread_reads_colors(before.grid, a, b, blend, s@, r@);
        },
        (Samples::Real(s), Samples::Real(r)) => {
            let blend = |s: T, v: T, o: T| real_blend_is(s, v, o);
            lemma_spread_reads_colors(before.grid, a, b, blend, s@, r@);
        },
        _ => {},
    }
}

/// Wherever a position falls along an axis of the residual, the two pixels it lies between are
/// pixels of the residual, and the second is the next one after the first or, at the end of the
/// axis, the first itself.
pub proof fn taps_are_neighbors<T: Sample>(n: u32, len: u32, taps: Seq<Tap<T>>, i: int)
    requires
        axis_is(n, len, taps),
        0 <= i < len,
    ensures
        taps[i].low <= taps[i].high < n,
        taps[i].high == taps[i].low + 1 || (taps[i].high == taps[i].low && taps[i].low == n - 1),
{
    let (scale, start, positions) = choose|scale: T, start: T, positions: Seq<T>|
        {
            &&& #[trigger] ratio_is(n, len, scale)
            &&& #[trigger] start_is(scale, start)
            &&& positions.len() == len
            &&& #[trigger] walk_is(start, scale, positions)
            &&& forall|i: int|
                0 <= i < len ==> #[trigger] tap_is(n, positions[i], taps[i])
        };
    assert(tap_is(n, positions[i], taps[i]));
}

/// Every sample of every pixel of a picture is the sample of one channel, one column and one row,
/// and no other sample is.
pub proof fn samples_have_one_place(grid: Grid, x: int, y: int, c: int)
    requires
        0 <= x < grid.width,
        0 <= y < grid.height,
        0 <= c < grid.layout.channels_spec(),
    ensures
        ({
            let j = (y * grid.width + x) * grid.layout.channels_spec() + c;
            &&& 0 <= j < grid.len()
            &&& grid.channel(j) == c
            &&& grid.column(j) == x
            &&& grid.row(j) == y
            &&& grid.colored(j) <==> c < grid.layout.colors_spec()
        }),
        forall|i: int|
            0 <= i < grid.len() && grid.channel(i) == c && grid.column(i) == x && #[trigger] grid.row(
                i,
            ) == y ==> i == (y * grid.width + x) * grid.layout.channels_spec() + c,
{
    lemma_index_parts(grid, x, y, c);
    assert forall|i: int|
        0 <= i < grid.len() && grid.channel(i) == c && grid.column(i) == x && #[trigger] grid.row(i)
            == y implies i == (y * grid.width + x) * grid.layout.channels_spec() + c by {
        let ch = grid.layout.channels_spec() as int;
        let p = i / ch;
        lemma_fundamental_div_mod(i, ch);
        lemma_fundamental_div_mod(p, grid.width as int);
        assert(p == y * grid.width + x) by (nonlinear_arith)
            requires
                p == (grid.width as int) * y + x,
        ;
        assert(i == p * ch + c) by (nonlinear_arith)
            requires
                i == ch * p + c,
        ;
    }
}

} // verus!
