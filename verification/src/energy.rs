//! Pixels, the per-cell record that the carver keeps, and the energy arithmetic.

use num_traits::ToPrimitive;
use vstd::prelude::*;

verus! {

/// The greatest gradient that two pixels can have: four channels of `255 * 255`.
pub const MAX_GRADIENT: u32 = 260100;

/// An 8-bit colour of four channels. The channels are not interpreted.
#[derive(Clone, Copy, Debug, PartialEq, Eq, Structural)]
pub struct Pixel {
    pub r: u8,
    pub g: u8,
    pub b: u8,
    pub a: u8,
}

/// A pixel with its energy, its cumulative path cost, and the coordinate that it
/// had when the grid was built.
#[derive(Clone, Copy, Debug)]
pub struct PixelEnergyPoint {
    pub pixel: Pixel,
    pub energy: u32,
    pub path_cost: u32,
    pub original_position: (usize, usize),
}

/// The squared difference of two channel values.
pub open spec fn channel_gap(a: u8, b: u8) -> int {
    (a - b) * (a - b)
}

/// The sum over the four channels of the squared difference of two pixels.
pub open spec fn spec_square_gradient(a: Pixel, b: Pixel) -> int {
    channel_gap(a.r, b.r) + channel_gap(a.g, b.g) + channel_gap(a.b, b.b) + channel_gap(a.a, b.a)
}

/// The truncating mean of two channel values.
pub open spec fn channel_mean(a: u8, b: u8) -> u8 {
    ((a + b) / 2) as u8
}

/// The per-channel truncating mean of two pixels.
pub open spec fn spec_average(a: Pixel, b: Pixel) -> Pixel {
    Pixel {
        r: channel_mean(a.r, b.r),
        g: channel_mean(a.g, b.g),
        b: channel_mean(a.b, b.b),
        a: channel_mean(a.a, b.a),
    }
}

/// The record that a pixel starts with: no energy, no path cost, position `(0, 0)`.
pub open spec fn spec_point(pixel: Pixel) -> PixelEnergyPoint {
    PixelEnergyPoint { pixel, energy: 0, path_cost: 0, original_position: (0, 0) }
}

/// A gradient is never negative and never more than `MAX_GRADIENT`; it is zero
/// between equal pixels.
pub proof fn lemma_square_gradient_bounds(a: Pixel, b: Pixel)
    ensures
        0 <= spec_square_gradient(a, b) <= MAX_GRADIENT,
        a == b ==> spec_square_gradient(a, b) == 0,
        spec_square_gradient(a, b) == spec_square_gradient(b, a),
{
    lemma_channel_gap(a.r, b.r);
    lemma_channel_gap(a.g, b.g);
    lemma_channel_gap(a.b, b.b);
    lemma_channel_gap(a.a, b.a);
}

proof fn lemma_channel_gap(a: u8, b: u8)
    ensures
        0 <= channel_gap(a, b) <= 65025,
        channel_gap(a, b) == channel_gap(b, a),
        a == b ==> channel_gap(a, b) == 0,
        a >= b ==> channel_gap(a, b) == (a - b) * (a - b),
        a < b ==> channel_gap(a, b) == (b - a) * (b - a),
{
    let d: int = a - b;
    assert(-255 <= d <= 255);
    assert(0 <= d * d <= 65025) by (nonlinear_arith)
        requires
            -255 <= d <= 255,
    ;
    assert(d * d == (-d) * (-d)) by (nonlinear_arith);
    assert(d == 0 ==> d * d == 0) by (nonlinear_arith);
}

/// `ToPrimitive::to_u32` of num_traits on a `u8`: the channel value, widened.
/// Its source answers `Some(*self as u32)` whenever the target type is at least
/// as wide as the source, which it is here.
#[verifier::external_body]
fn channel_to_u32(channel: u8) -> (wide: Option<u32>)
    ensures
        wide == Some(channel as u32),
{
    channel.to_u32()
}

/// The squared difference of two channel values, in 32 bits.
fn square_gap(a: u8, b: u8) -> (gap: u32)
    ensures
        gap == channel_gap(a, b),
        gap <= 65025,
{
    proof {
        lemma_channel_gap(a, b);
    }
    // Widened to `u32` so that neither the difference nor its square can overflow.
    let a = channel_to_u32(a).unwrap();
    let b = channel_to_u32(b).unwrap();
    if a >= b {
        let d = a - b;
        assert(d * d <= 65025) by (nonlinear_arith)
            requires
                0 <= d <= 255,
        ;
        d * d
    } else {
        let d = b - a;
        assert(d * d <= 65025) by (nonlinear_arith)
            requires
                0 <= d <= 255,
        ;
        d * d
    }
}

/// The truncating mean of each pair of channel values.
fn average_pixel_data(pixel1: &Pixel, pixel2: &Pixel) -> (mean: Pixel)
    ensures
        mean == spec_average(*pixel1, *pixel2),
{
    Pixel {
        r: ((pixel1.r as u16 + pixel2.r as u16) / 2) as u8,
        g: ((pixel1.g as u16 + pixel2.g as u16) / 2) as u8,
        b: ((pixel1.b as u16 + pixel2.b as u16) / 2) as u8,
        a: ((pixel1.a as u16 + pixel2.a as u16) / 2) as u8,
    }
}

impl Pixel {
    /// A pixel of the four channel values.
    pub fn new(r: u8, g: u8, b: u8, a: u8) -> (pixel: Pixel)
        ensures
            pixel == (Pixel { r, g, b, a }),
    {
        Pixel { r, g, b, a }
    }
}

impl PixelEnergyPoint {
    /// The basis of the energy: the sum over the channels of the squared
    /// difference between this pixel and the other.
    pub fn square_gradient(&self, other: &PixelEnergyPoint) -> (sum: u32)
        ensures
            sum == spec_square_gradient(self.pixel, other.pixel),
            sum <= MAX_GRADIENT,
    {
        let mut sum: u32 = 0;
        sum += square_gap(self.pixel.r, other.pixel.r);
        sum += square_gap(self.pixel.g, other.pixel.g);
        sum += square_gap(self.pixel.b, other.pixel.b);
        sum += square_gap(self.pixel.a, other.pixel.a);
        sum
    }

    /// A fresh point whose pixel is the per-channel mean of this one and the other.
    pub fn average(&self, other: &PixelEnergyPoint) -> (mean: PixelEnergyPoint)
        ensures
            mean == spec_point(spec_average(self.pixel, other.pixel)),
    {
        let data = average_pixel_data(&self.pixel, &other.pixel);
        PixelEnergyPoint::from(data)
    }
}

impl From<Pixel> for PixelEnergyPoint {
    fn from(pixel: Pixel) -> (point: Self) {
        PixelEnergyPoint { pixel, energy: 0, path_cost: 0, original_position: (0, 0) }
    }
}

impl vstd::std_specs::convert::FromSpecImpl<Pixel> for PixelEnergyPoint {
    open spec fn obeys_from_spec() -> bool {
        true
    }

    open spec fn from_spec(pixel: Pixel) -> Self {
        spec_point(pixel)
    }
}

} // verus!
