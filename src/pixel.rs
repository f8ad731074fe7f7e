use vstd::prelude::*;

verus! {

/// A pixel as its red, green and blue channel values.
#[derive(Clone, Copy, Debug, PartialEq, Eq, Structural)]
pub struct Pixel {
    pub r: u8,
    pub g: u8,
    pub b: u8,
}

/// Three times the brightness of `p`: the sum of its channels.
pub open spec fn luma3(p: Pixel) -> int {
    p.r as int + p.g as int + p.b as int
}

/// Whether `p` belongs to a sortable run: its brightness lies strictly above
/// the threshold, given in thirds of a brightness unit.
pub open spec fn is_above(p: Pixel, threshold_thirds: int) -> bool {
    luma3(p) > threshold_thirds
}

impl Pixel {
    pub fn new(r: u8, g: u8, b: u8) -> (p: Pixel)
        ensures
            p.r == r && p.g == g && p.b == b,
    {
        Pixel { r, g, b }
    }
}

/// The brightness of `pixel` in thirds, that is the sum of its channels
/// (between 0 and 765).
pub fn luma_from_pixel(pixel: Pixel) -> (l: u16)
    ensures
        l as int == luma3(pixel),
        l <= 765,
{
    pixel.r as u16 + pixel.g as u16 + pixel.b as u16
}

/// Orders two pixels by ascending brightness; pixels of equal brightness
/// compare as equal.
pub fn comp_pixel(a: Pixel, b: Pixel) -> (o: std::cmp::Ordering)
    ensures
        (o == std::cmp::Ordering::Less) <==> luma3(a) < luma3(b),
        (o == std::cmp::Ordering::Equal) <==> luma3(a) == luma3(b),
        (o == std::cmp::Ordering::Greater) <==> luma3(a) > luma3(b),
{
    let a_luma: u16 = luma_from_pixel(a);
    let b_luma: u16 = luma_from_pixel(b);
    if a_luma > b_luma {
        std::cmp::Ordering::Greater
    } else if a_luma < b_luma {
        std::cmp::Ordering::Less
    } else {
        std::cmp::Ordering::Equal
    }
}

/// Whether `pixel` lies strictly above the threshold, given in thirds.
pub fn pixel_is_above(pixel: Pixel, threshold_thirds: i64) -> (above: bool)
    ensures
        above == is_above(pixel, threshold_thirds as int),
{
    (luma_from_pixel(pixel) as i64) > threshold_thirds
}

} // verus!
