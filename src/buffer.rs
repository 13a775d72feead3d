use image::{ImageBuffer, Rgba};
use vstd::prelude::*;

verus! {

/// An RGBA image with one byte per channel, as the `image` crate holds it.
#[verifier::external_body]
#[derive(Debug)]
pub struct Rgba8Image(pub ImageBuffer<Rgba<u8>, Vec<u8>>);

/// The channel bytes held by an RGBA image buffer, in its raw order (pixel by
/// pixel, row by row, four channels each).
pub uninterp spec fn samples_of(img: Rgba8Image) -> Seq<u8>;

/// The width of an RGBA image buffer, in pixels.
pub uninterp spec fn width_of(img: Rgba8Image) -> u32;

/// The height of an RGBA image buffer, in pixels.
pub uninterp spec fn height_of(img: Rgba8Image) -> u32;

/// Relies on `ImageBuffer::as_raw`: it hands out the whole underlying container.
#[verifier::external_body]
pub(crate) fn raw_samples(img: &Rgba8Image) -> (r: &Vec<u8>)
    ensures
        r@ == samples_of(*img),
{
    img.0.as_raw()
}

/// Relies on `ImageBuffer::width`. Every constructor of `ImageBuffer` checks
/// that the container holds at least four bytes per pixel, and the length of
/// the container never changes afterwards.
#[verifier::external_body]
pub(crate) fn buffer_width(img: &Rgba8Image) -> (r: u32)
    ensures
        r == width_of(*img),
        4 * r * height_of(*img) <= samples_of(*img).len(),
{
    img.0.width()
}

/// Relies on `ImageBuffer::height`.
#[verifier::external_body]
pub(crate) fn buffer_height(img: &Rgba8Image) -> (r: u32)
    ensures
        r == height_of(*img),
{
    img.0.height()
}

/// Relies on `ImageBuffer::clone`: the copy has the same dimensions and a
/// copy of the container.
#[verifier::external_body]
pub(crate) fn copy_buffer(img: &Rgba8Image) -> (r: Rgba8Image)
    ensures
        samples_of(r) == samples_of(*img),
        width_of(r) == width_of(*img),
        height_of(r) == height_of(*img),
{
    Rgba8Image(img.0.clone())
}

/// Relies on `ImageBuffer`'s `DerefMut` to its container's slice: writing one
/// byte of it changes that byte only.
#[verifier::external_body]
pub(crate) fn set_sample(img: &mut Rgba8Image, i: usize, value: u8)
    requires
        i < samples_of(*old(img)).len(),
    ensures
        samples_of(*final(img)) == samples_of(*old(img)).update(i as int, value),
        width_of(*final(img)) == width_of(*old(img)),
        height_of(*final(img)) == height_of(*old(img)),
{
    let samples: &mut [u8] = &mut img.0;
    samples[i] = value;
}

} // verus!
