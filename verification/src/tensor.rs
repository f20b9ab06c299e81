//! Tensors, and the way between the order of samples in a picture and in a tensor.
use crate::bindings::{addressable, to_shape};
use crate::error::Error;
use crate::residual::FloatImage;
use crate::sample::{
    convert_from_0_1_to_neg1_1, convert_from_neg1_1_to_0_1, signed_is, total, unsigned_is, Sample,
};
use vstd::arithmetic::div_mod::{lemma_fundamental_div_mod, lemma_fundamental_div_mod_converse};
use vstd::prelude::*;

verus! {

/// The number of colour channels that the model works on.
pub const CHANNELS: usize = 3;

/// The number of elements in an array of the given shape.
pub open spec fn volume(shape: Seq<usize>) -> nat
    decreases shape.len(),
{
    if shape.len() == 0 {
        1
    } else {
        volume(shape.drop_last()) * (shape.last() as nat)
    }
}

/// An array of any number of axes, its elements in row-major order.
#[derive(Debug)]
pub struct Tensor<T> {
    pub shape: Vec<usize>,
    pub data: Vec<T>,
}

impl<T> Tensor<T> {
    /// There are as many elements as the shape asks for.
    pub open spec fn wf(self) -> bool {
        self.data@.len() == volume(self.shape@)
    }

    /// The tensor holds one picture of three channels, `height` rows and `width` columns.
    pub open spec fn is_picture(self, height: int, width: int) -> bool {
        &&& self.shape@.len() == 4
        &&& self.shape@[0] == 1
        &&& self.shape@[1] == CHANNELS
        &&& self.shape@[2] == height
        &&& self.shape@[3] == width
    }
}

/// A tensor of one picture has an element for every channel of every pixel.
pub proof fn picture_volume(shape: Seq<usize>)
    requires
        shape.len() == 4,
        shape[0] == 1,
        shape[1] == CHANNELS,
    ensures
        volume(shape) == CHANNELS * (shape[2] * shape[3]),
{
    reveal_with_fuel(volume, 5);
    let s3 = shape.drop_last();
    let s2 = s3.drop_last();
    let s1 = s2.drop_last();
    assert(s1.drop_last().len() == 0);
    assert(volume(s1) == volume(s1.drop_last()) * (shape[0] as nat));
    assert(volume(s2) == volume(s1) * (shape[1] as nat));
    assert(volume(s3) == volume(s2) * (shape[2] as nat));
    assert(volume(shape) == volume(s3) * (shape[3] as nat));
    assert(volume(shape) == CHANNELS * (shape[2] * shape[3])) by (nonlinear_arith)
        requires
            volume(s1) == 1,
            volume(s2) == volume(s1) * (CHANNELS as nat),
            volume(s3) == volume(s2) * (shape[2] as nat),
            volume(shape) == volume(s3) * (shape[3] as nat),
    ;
}

/// Where sample `j` of a picture of `pixels` pixels stands in a tensor: sample `j` is that of
/// channel `j % 3` in pixel `j / 3`, and a tensor holds the channels one after the other.
pub open spec fn planar_index(pixels: int, j: int) -> int {
    (j % 3) * pixels + j / 3
}

/// Where element `i` of a tensor of `pixels` pixels stands in a picture.
pub open spec fn interleaved_index(pixels: int, i: int) -> int {
    (i % pixels) * 3 + i / pixels
}

/// Going from picture order to tensor order and back leads to the same sample.
pub proof fn planar_order_round_trips(pixels: int, j: int)
    requires
        0 <= j < 3 * pixels,
    ensures
        0 <= planar_index(pixels, j) < 3 * pixels,
        interleaved_index(pixels, planar_index(pixels, j)) == j,
{
    let c = j % 3;
    let p = j / 3;
    assert(0 <= c * pixels <= 2 * pixels) by (nonlinear_arith)
        requires
            0 <= c <= 2,
            pixels > 0,
    ;
    lemma_fundamental_div_mod_converse(c * pixels + p, pixels, c, p);
}

/// Going from tensor order to picture order and back leads to the same element.
pub proof fn interleaved_order_round_trips(pixels: int, i: int)
    requires
        0 <= i < 3 * pixels,
    ensures
        0 <= interleaved_index(pixels, i) < 3 * pixels,
        planar_index(pixels, interleaved_index(pixels, i)) == i,
{
    let c = i / pixels;
    let p = i % pixels;
    lemma_fundamental_div_mod(i, pixels);
    assert(0 <= c < 3) by (nonlinear_arith)
        requires
            i == pixels * c + p,
            0 <= p < pixels,
            0 <= i < 3 * pixels,
    ;
    assert(c * pixels == pixels * c) by (nonlinear_arith);
}

/// In a tensor the channels follow one another, and within a channel the rows: the element at
/// channel `c`, row `y` and column `x` stands where the row-major order of the axes
/// `(channel, row, column)` puts it.
pub proof fn tensor_order_is_row_major(height: int, width: int, c: int, y: int, x: int)
    requires
        0 <= c < 3,
        0 <= y < height,
        0 <= x < width,
    ensures
        planar_index(height * width, (y * width + x) * 3 + c) == (c * height + y) * width + x,
{
    let p = y * width + x;
    assert((p * 3 + c) % 3 == c && (p * 3 + c) / 3 == p) by {
        assert(p >= 0) by (nonlinear_arith)
            requires
                p == y * width + x,
                0 <= y,
                0 <= x < width,
        ;
    }
    assert(c * (height * width) + (y * width + x) == (c * height + y) * width + x)
        by (nonlinear_arith);
}

/// `t` is the tensor that the model takes for the interleaved `samples` of a square picture: each
/// sample taken from [0, 1] to [-1, 1] and put where tensors have it.
pub open spec fn tensor_of<T: Sample>(size: u32, samples: Seq<T>, t: Tensor<T>) -> bool {
    &&& t.is_picture(size as int, size as int)
    &&& t.data@.len() == samples.len() == size * size * 3
    &&& forall|i: int|
        0 <= i < t.data@.len() ==> signed_is(
            samples[interleaved_index(size * size, i)],
            #[trigger] t.data@[i],
        )
}

/// Turns the samples of a square picture of three channels into the tensor that the model takes:
/// re-normalised to [-1, 1], of shape `[1, 3, size, size]`.
pub fn model_input<T: Sample>(size: u32, samples: Vec<T>) -> (r: Result<Tensor<T>, Error>)
    requires
        total::<T>(),
        samples@.len() <= isize::MAX,
    ensures
        r is Ok <==> samples@.len() == size * size * 3,
        match r {
            Ok(t) => t.wf() && tensor_of(size, samples@, t),
            Err(e) => e is Shape,
        },
{
    let side: usize = size as usize;
    let ghost given = samples@;
    proof {
        assert(size * size * 3 == given.len() ==> addressable(side, side, CHANNELS)) by {
            if size == 0 {
                assert(1int * 1int * 3 == 3);
            } else {
                assert(addressable(side, side, CHANNELS) <==> side * side * CHANNELS <= isize::MAX);
            }
        }
    }
    let samples = match to_shape(samples, side, side, CHANNELS) {
        Ok(v) => v,
        Err(e) => {
            return Err(Error::from(e));
        },
    };
    assert(samples@.len() == size * size * 3);
    assert(samples.len() <= usize::MAX);
    let pixels: usize = side * side;
    let mut data: Vec<T> = Vec::new();
    let mut c: usize = 0;
    while c < CHANNELS
        invariant
            total::<T>(),
            pixels == size * size,
            samples@.len() == pixels * 3,
            0 <= c <= CHANNELS,
            data@.len() == c * pixels,
            forall|i: int|
                0 <= i < data@.len() ==> signed_is(
                    samples@[interleaved_index(pixels as int, i)],
                    #[trigger] data@[i],
                ),
        decreases CHANNELS - c,
    {
        let mut p: usize = 0;
        while p < pixels
            invariant
                total::<T>(),
                pixels == size * size,
                samples@.len() == pixels * 3,
                0 <= c < CHANNELS,
                0 <= p <= pixels,
                data@.len() == c * pixels + p,
                forall|i: int|
                    0 <= i < data@.len() ==> signed_is(
                        samples@[interleaved_index(pixels as int, i)],
                        #[trigger] data@[i],
                    ),
            decreases pixels - p,
        {
            proof {
                assert(samples.len() <= usize::MAX);
                let i = c * pixels + p;
                lemma_fundamental_div_mod_converse(i, pixels as int, c as int, p as int);
                assert(interleaved_index(pixels as int, i) == p * 3 + c);
            }
            let v = convert_from_0_1_to_neg1_1(samples[p * CHANNELS + c]);
            data.push(v);
            p = p + 1;
        }
        proof {
            assert(c * pixels + pixels == (c + 1) * pixels) by (nonlinear_arith);
        }
        c = c + 1;
    }
    let shape: Vec<usize> = vec![1, CHANNELS, side, side];
    proof {
        picture_volume(shape@);
        assert(samples@ == given);
    }
    Ok(Tensor { shape, data })
}

/// `img` is the picture that a tensor of one picture stands for: each element taken from [-1, 1]
/// to [0, 1] and put where pictures have it. The sides of a picture have 32 bits; longer axes lose
/// their upper bits.
pub open spec fn picture_of<T: Sample>(array: Tensor<T>, img: FloatImage<T>) -> bool {
    let height = array.shape@[2];
    let width = array.shape@[3];
    &&& img.width == width as int % 0x1_0000_0000
    &&& img.height == height as int % 0x1_0000_0000
    &&& img.channels == CHANNELS
    &&& img.samples@.len() == array.data@.len()
    &&& forall|j: int|
        0 <= j < img.samples@.len() ==> unsigned_is(
            array.data@[planar_index(height * width, j)],
            #[trigger] img.samples@[j],
        )
}

/// Turns a tensor of shape `[1, 3, height, width]` from the model into a picture, re-normalised to
/// [0, 1].
pub fn model_output<T: Sample>(array: &Tensor<T>) -> (r: Result<FloatImage<T>, Error>)
    requires
        total::<T>(),
        array.wf(),
    ensures
        r is Ok <==> exists|height: int, width: int| #[trigger] array.is_picture(height, width),
        r is Ok <==> array.shape@.len() == 4 && array.shape@[0] == 1 && array.shape@[1] == 3,
        match r {
            Ok(img) => img.wf() && picture_of(*array, img),
            Err(e) => e is InvalidShape,
        },
{
    if array.shape.len() != 4 || array.shape[0] != 1 || array.shape[1] != CHANNELS {
        return Err(Error::InvalidShape);
    }
    let height: usize = array.shape[2];
    let width: usize = array.shape[3];
    proof {
        assert(array.is_picture(height as int, width as int));
        picture_volume(array.shape@);
        assert(array.data.len() <= usize::MAX);
    }
    let pixels: usize = height * width;
    let mut samples: Vec<T> = Vec::new();
    let mut p: usize = 0;
    while p < pixels
        invariant
            total::<T>(),
            array.data@.len() == 3 * pixels,
            0 <= p <= pixels,
            samples@.len() == 3 * p,
            forall|j: int|
                0 <= j < samples@.len() ==> unsigned_is(
                    array.data@[planar_index(pixels as int, j)],
                    #[trigger] samples@[j],
                ),
        decreases pixels - p,
    {
        let mut c: usize = 0;
        while c < CHANNELS
            invariant
                total::<T>(),
                array.data@.len() == 3 * pixels,
                0 <= p < pixels,
                0 <= c <= CHANNELS,
                samples@.len() == 3 * p + c,
                forall|j: int|
                    0 <= j < samples@.len() ==> unsigned_is(
                        array.data@[planar_index(pixels as int, j)],
                        #[trigger] samples@[j],
                    ),
            decreases CHANNELS - c,
        {
            proof {
                assert(array.data.len() <= usize::MAX);
                let j = 3 * p + c;
                assert(j % 3 == c && j / 3 == p);
                assert(0 <= c * pixels <= 2 * pixels) by (nonlinear_arith)
                    requires
                        0 <= c <= 2,
                        pixels > 0,
                ;
            }
            let v = convert_from_neg1_1_to_0_1(array.data[c * pixels + p]);
            samples.push(v);
            c = c + 1;
        }
        p = p + 1;
    }
    let w: u32 = (width as u64 % 0x1_0000_0000) as u32;
    let h: u32 = (height as u64 % 0x1_0000_0000) as u32;
    let img = FloatImage { width: w, height: h, channels: CHANNELS, samples };
    proof {
        assert(w * h * CHANNELS <= (height * width) * 3) by (nonlinear_arith)
            requires
                0 <= w <= width,
                0 <= h <= height,
                CHANNELS == 3,
        ;
    }
    Ok(img)
}

/// `after` is `before` taken from [0, 1] to [-1, 1] and back.
pub open spec fn renormalized<T: Sample>(before: T, after: T) -> bool {
    exists|v: T| #[trigger] signed_is(before, v) && unsigned_is(v, after)
}

/// `after` is `before` taken from [-1, 1] to [0, 1] and back.
pub open spec fn denormalized<T: Sample>(before: T, after: T) -> bool {
    exists|v: T| #[trigger] unsigned_is(before, v) && signed_is(v, after)
}

/// A picture that goes into a tensor and comes out again keeps its size, and each sample returns
/// to its place, having only been taken to [-1, 1] and back. A sample that this leaves alone is the
/// same.
pub proof fn pictures_survive_the_tensor<T: Sample>(
    size: u32,
    samples: Seq<T>,
    t: Tensor<T>,
    img: FloatImage<T>,
)
    requires
        tensor_of(size, samples, t),
        picture_of(t, img),
    ensures
        img.width == size,
        img.height == size,
        img.samples@.len() == samples.len(),
        forall|j: int|
            0 <= j < samples.len() ==> renormalized(samples[j], #[trigger] img.samples@[j]),
        forall|j: int|
            0 <= j < samples.len() && (forall|r: T| #[trigger]
                renormalized(samples[j], r) ==> r == samples[j]) ==> #[trigger] img.samples@[j]
                == samples[j],
{
    let n = size * size;
    assert forall|j: int| 0 <= j < samples.len() implies renormalized(
        samples[j],
        #[trigger] img.samples@[j],
    ) by {
        planar_order_round_trips(n, j);
        let v = t.data@[planar_index(n, j)];
        assert(signed_is(samples[j], v));
        assert(unsigned_is(v, img.samples@[j]));
    }
}

/// A tensor of a square picture that becomes a picture and then a tensor again keeps its shape,
/// and each element returns to its place, having only been taken to [0, 1] and back. An element
/// that this leaves alone is the same.
pub proof fn tensors_survive_the_picture<T: Sample>(
    size: u32,
    a: Tensor<T>,
    img: FloatImage<T>,
    t: Tensor<T>,
)
    requires
        a.wf(),
        a.is_picture(size as int, size as int),
        picture_of(a, img),
        tensor_of(size, img.samples@, t),
    ensures
        img.width == size,
        img.height == size,
        t.shape@ == a.shape@,
        t.data@.len() == a.data@.len(),
        forall|i: int|
            0 <= i < a.data@.len() ==> denormalized(a.data@[i], #[trigger] t.data@[i]),
        forall|i: int|
            0 <= i < a.data@.len() && (forall|r: T| #[trigger]
                denormalized(a.data@[i], r) ==> r == a.data@[i]) ==> #[trigger] t.data@[i]
                == a.data@[i],
{
    let n = size * size;
    picture_volume(a.shape@);
    assert(t.shape@ =~= a.shape@);
    assert forall|i: int| 0 <= i < a.data@.len() implies denormalized(
        a.data@[i],
        #[trigger] t.data@[i],
    ) by {
        interleaved_order_round_trips(n, i);
        let j = interleaved_index(n, i);
        let v = img.samples@[j];
        assert(unsigned_is(a.data@[planar_index(n, j)], v));
        assert(signed_is(v, t.data@[i]));
    }
}

} // verus!
