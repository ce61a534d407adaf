//! The border to the `image` crate: pixels are read out of a decoded image
//! into a matrix, and a matrix is made an image again for encoding.

use crate::carve::Carver;
use crate::energy::Pixel;
use crate::model::MAX_SIDE;
use image::{DynamicImage, GenericImageView, RgbaImage};
use vstd::prelude::*;

verus! {

/// A decoded image of the `image` crate, of whatever colour type.
#[verifier::external_type_specification]
#[verifier::external_body]
pub struct ExDynamicImage(image::DynamicImage);

/// The width and the height of an image, as its `dimensions` reports them.
pub uninterp spec fn image_size(image: DynamicImage) -> (nat, nat);

/// What an image holds: for each coordinate `(x, y)` inside it, the pixel there
/// as its `get_pixel` returns it, in the four channels red, green, blue and
/// alpha of eight bits each.
pub uninterp spec fn image_pixels(image: DynamicImage) -> Map<(int, int), (u8, u8, u8, u8)>;

/// `GenericImageView::dimensions` of `image` on a `DynamicImage`. The contract
/// says that it returns the width and the height of the image.
#[verifier::external_body]
fn image_dimensions(image: &DynamicImage) -> (size: (u32, u32))
    ensures
        size.0 == image_size(*image).0,
        size.1 == image_size(*image).1,
{
    image.dimensions()
}

/// `GenericImageView::get_pixel` of `image` on a `DynamicImage`, which panics
/// outside the image. The contract says that inside the image it returns the
/// pixel that the image holds at `(x, y)`, as RGBA of eight bits.
#[verifier::external_body]
fn image_get_pixel(image: &DynamicImage, x: u32, y: u32) -> (pixel: Pixel)
    requires
        x < image_size(*image).0,
        y < image_size(*image).1,
    ensures
        (pixel.r, pixel.g, pixel.b, pixel.a) == image_pixels(*image)[(x as int, y as int)],
{
    let rgba = image.get_pixel(x, y);
    Pixel { r: rgba.0[0], g: rgba.0[1], b: rgba.0[2], a: rgba.0[3] }
}

/// `ImageBuffer::from_raw` of `image` for a buffer of RGBA bytes, the result
/// made a `DynamicImage` through its variant `ImageRgba8`. The contract says
/// that an image is made exactly where the buffer holds at least four bytes
/// per pixel, that it has the given size, and that its pixel at `(x, y)` is the
/// four bytes from `4 * (y * width + x)` on.
#[verifier::external_body]
fn image_from_raw(width: u32, height: u32, bytes: Vec<u8>) -> (image: Option<DynamicImage>)
    ensures
        image is Some <==> 4 * width * height <= bytes@.len(),
        match image {
            Some(made) => {
                &&& image_size(made) == (width as nat, height as nat)
                &&& forall|x: int, y: int|
                    0 <= x < width && 0 <= y < height ==> #[trigger] image_pixels(made)[(x, y)] == (
                        bytes@[4 * (y * width + x)],
                        bytes@[4 * (y * width + x) + 1],
                        bytes@[4 * (y * width + x) + 2],
                        bytes@[4 * (y * width + x) + 3],
                    )
            },
            None => true,
        },
{
    RgbaImage::from_raw(width, height, bytes).map(DynamicImage::ImageRgba8)
}

/// Whether `pixels` holds, row by row, the pixels of `image`.
pub open spec fn holds_image(pixels: Seq<Vec<Pixel>>, image: DynamicImage) -> bool {
    &&& pixels.len() == image_size(image).1
    &&& forall|y: int| 0 <= y < pixels.len() ==> (#[trigger] pixels[y])@.len() == image_size(image).0
    &&& forall|x: int, y: int|
        0 <= x < image_size(image).0 && 0 <= y < image_size(image).1 ==> {
            let pixel = #[trigger] pixels[y]@[x];
            (pixel.r, pixel.g, pixel.b, pixel.a) == image_pixels(image)[(x, y)]
        }
}

/// Whether every row of `pixels` is as long as the first.
pub open spec fn is_rectangular(pixels: Seq<Vec<Pixel>>) -> bool {
    forall|y: int| 0 <= y < pixels.len() ==> (#[trigger] pixels[y])@.len() == pixels[0]@.len()
}

/// The pixels of `image`, row by row, top row first.
pub fn read_pixels(image: &DynamicImage) -> (pixels: Vec<Vec<Pixel>>)
    ensures
        holds_image(pixels@, *image),
{
    let (width, height) = image_dimensions(image);

    let mut rows: Vec<Vec<Pixel>> = Vec::new();
    let mut y: u32 = 0;
    while y < height
        invariant
            width == image_size(*image).0,
            height == image_size(*image).1,
            y <= height,
            rows@.len() == y,
            forall|j: int| 0 <= j < y ==> (#[trigger] rows@[j])@.len() == width,
            forall|i: int, j: int|
                0 <= i < width && 0 <= j < y ==> {
                    let pixel = #[trigger] rows@[j]@[i];
                    (pixel.r, pixel.g, pixel.b, pixel.a) == image_pixels(*image)[(i, j)]
                },
        decreases height - y,
    {
        let mut row: Vec<Pixel> = Vec::new();
        let mut x: u32 = 0;
        while x < width
            invariant
                width == image_size(*image).0,
                height == image_size(*image).1,
                y < height,
                x <= width,
                row@.len() == x,
                forall|i: int|
                    0 <= i < x ==> {
                        let pixel = #[trigger] row@[i];
                        (pixel.r, pixel.g, pixel.b, pixel.a) == image_pixels(*image)[(i, y as int)]
                    },
            decreases width - x,
        {
            let pixel = image_get_pixel(image, x, y);
            row.push(pixel);
            x += 1;
        }
        rows.push(row);
        y += 1;
    }
    rows
}

/// An RGBA image of the rows `pixels`, top row first; `None` where the rows
/// differ in length or a side does not fit in 32 bits.
pub fn build_image(pixels: &Vec<Vec<Pixel>>) -> (image: Option<DynamicImage>)
    ensures
        image is Some <==> is_rectangular(pixels@) && pixels@.len() <= u32::MAX && (pixels@.len() > 0
            ==> pixels@[0]@.len() <= u32::MAX),
        match image {
            Some(made) => holds_image(pixels@, made),
            None => true,
        },
{
    let height = pixels.len();
    let width = if height > 0 {
        pixels[0].len()
    } else {
        0
    };
    if height > u32::MAX as usize || width > u32::MAX as usize {
        return None;
    }
    let mut bytes: Vec<u8> = Vec::new();
    let mut y: usize = 0;
    while y < height
        invariant
            height == pixels@.len(),
            height > 0 ==> width == pixels@[0]@.len(),
            y <= height,
            forall|j: int| 0 <= j < y ==> (#[trigger] pixels@[j])@.len() == width,
            bytes@.len() == 4 * (y * width),
            forall|i: int, j: int|
                0 <= i < width && 0 <= j < y ==> {
                    let pixel = #[trigger] pixels@[j]@[i];
                    &&& bytes@[4 * (j * width + i)] == pixel.r
                    &&& bytes@[4 * (j * width + i) + 1] == pixel.g
                    &&& bytes@[4 * (j * width + i) + 2] == pixel.b
                    &&& bytes@[4 * (j * width + i) + 3] == pixel.a
                },
        decreases height - y,
    {
        if pixels[y].len() != width {
            return None;
        }
        let mut x: usize = 0;
        while x < width
            invariant
                height == pixels@.len(),
                y < height,
                pixels@[y as int]@.len() == width,
                x <= width,
                forall|j: int| 0 <= j < y ==> (#[trigger] pixels@[j])@.len() == width,
                bytes@.len() == 4 * (y * width + x),
                forall|i: int, j: int|
                    0 <= i < width && 0 <= j < y ==> {
                        let pixel = #[trigger] pixels@[j]@[i];
                        &&& bytes@[4 * (j * width + i)] == pixel.r
                        &&& bytes@[4 * (j * width + i) + 1] == pixel.g
                        &&& bytes@[4 * (j * width + i) + 2] == pixel.b
                        &&& bytes@[4 * (j * width + i) + 3] == pixel.a
                    },
                forall|i: int|
                    0 <= i < x ==> {
                        let pixel = #[trigger] pixels@[y as int]@[i];
                        &&& bytes@[4 * (y * width + i)] == pixel.r
                        &&& bytes@[4 * (y * width + i) + 1] == pixel.g
                        &&& bytes@[4 * (y * width + i) + 2] == pixel.b
                        &&& bytes@[4 * (y * width + i) + 3] == pixel.a
                    },
            decreases width - x,
        {
            let pixel = pixels[y][x];
            let ghost before = bytes@;
            bytes.push(pixel.r);
            bytes.push(pixel.g);
            bytes.push(pixel.b);
            bytes.push(pixel.a);
            proof {
                assert forall|i: int, j: int| 0 <= i < width && 0 <= j < y implies {
                    let pixel = #[trigger] pixels@[j]@[i];
                    &&& bytes@[4 * (j * width + i)] == pixel.r
                    &&& bytes@[4 * (j * width + i) + 1] == pixel.g
                    &&& bytes@[4 * (j * width + i) + 2] == pixel.b
                    &&& bytes@[4 * (j * width + i) + 3] == pixel.a
                } by {
                    lemma_before(width as int, i, j, y as int);
                    assert(bytes@[4 * (j * width + i)] == before[4 * (j * width + i)]);
                    assert(bytes@[4 * (j * width + i) + 1] == before[4 * (j * width + i) + 1]);
                    assert(bytes@[4 * (j * width + i) + 2] == before[4 * (j * width + i) + 2]);
                    assert(bytes@[4 * (j * width + i) + 3] == before[4 * (j * width + i) + 3]);
                }
                assert forall|i: int| 0 <= i < x + 1 implies {
                    let pixel = #[trigger] pixels@[y as int]@[i];
                    &&& bytes@[4 * (y * width + i)] == pixel.r
                    &&& bytes@[4 * (y * width + i) + 1] == pixel.g
                    &&& bytes@[4 * (y * width + i) + 2] == pixel.b
                    &&& bytes@[4 * (y * width + i) + 3] == pixel.a
                } by {
                    if i < x {
                        assert(bytes@[4 * (y * width + i)] == before[4 * (y * width + i)]);
                        assert(bytes@[4 * (y * width + i) + 1] == before[4 * (y * width + i) + 1]);
                        assert(bytes@[4 * (y * width + i) + 2] == before[4 * (y * width + i) + 2]);
                        assert(bytes@[4 * (y * width + i) + 3] == before[4 * (y * width + i) + 3]);
                    }
                }
            }
            x += 1;
        }
        proof {
            assert((y + 1) * width == y * width + width) by (nonlinear_arith);
        }
        y += 1;
    }
    proof {
        let w = width as int;
        let h = height as int;
        assert(4 * w * h == 4 * (h * w)) by (nonlinear_arith);
    }
    let image = image_from_raw(width as u32, height as u32, bytes);
    proof {
        let made = image->0;
        assert forall|x: int, y: int|
            0 <= x < image_size(made).0 && 0 <= y < image_size(made).1 implies {
            let pixel = #[trigger] pixels@[y]@[x];
            (pixel.r, pixel.g, pixel.b, pixel.a) == image_pixels(made)[(x, y)]
        } by {
            assert(image_pixels(made)[(x, y)] == (
                bytes@[4 * (y * width + x)],
                bytes@[4 * (y * width + x) + 1],
                bytes@[4 * (y * width + x) + 2],
                bytes@[4 * (y * width + x) + 3],
            ));
        }
    }
    image
}

/// A cell of an earlier row stands before every cell of a later row.
proof fn lemma_before(width: int, i: int, j: int, y: int)
    requires
        0 <= i < width,
        0 <= j < y,
    ensures
        j * width + i < y * width,
        0 <= j * width + i,
{
    assert(j * width + i < y * width && 0 <= j * width + i) by (nonlinear_arith)
        requires
            0 <= i < width,
            0 <= j < y,
    ;
}

impl Carver {
    /// A carver for the picture that `image` holds; `None` where the image is
    /// empty or a side of it is longer than `MAX_SIDE`.
    pub fn from_image(image: &DynamicImage) -> (carver: Option<Carver>)
        ensures
            carver is Some <==> 1 <= image_size(*image).0 <= MAX_SIDE && 1 <= image_size(*image).1
                <= MAX_SIDE,
            match carver {
                Some(made) => {
                    &&& made.wf()
                    &&& made@.width == image_size(*image).0
                    &&& made@.height() == image_size(*image).1
                    &&& forall|x: int, y: int|
                        made@.in_bounds(x, y) ==> {
                            let pixel = #[trigger] made@.cell(x, y).pixel;
                            (pixel.r, pixel.g, pixel.b, pixel.a) == image_pixels(*image)[(x, y)]
                        }
                },
                None => true,
            },
    {
        let pixels = read_pixels(image);
        if pixels.len() < 1 || pixels.len() > MAX_SIDE {
            return None;
        }
        if pixels[0].len() < 1 || pixels[0].len() > MAX_SIDE {
            return None;
        }
        let ghost rows = pixels@;
        let carver = Carver::new(pixels);
        proof {
            assert forall|x: int, y: int| carver@.in_bounds(x, y) implies {
                let pixel = #[trigger] carver@.cell(x, y).pixel;
                (pixel.r, pixel.g, pixel.b, pixel.a) == image_pixels(*image)[(x, y)]
            } by {
                assert(carver@.cell(x, y).pixel == rows[y]@[x]);
            }
        }
        Some(carver)
    }
}

} // verus!
