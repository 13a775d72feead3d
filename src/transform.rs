use crate::buffer::{
    buffer_height, buffer_width, copy_buffer, height_of, raw_samples, samples_of, set_sample,
    width_of, Rgba8Image,
};
use crate::error::{PosterizeError, PosterizeErrorType};
use crate::levels::{
    lemma_posterize_idempotent, lemma_posterized_first_nearest, posterize, posterized,
};
use vstd::prelude::*;

verus! {

/// The channel bytes `s` after posterizing the first `n` of them with
/// `buckets` buckets over `[0, 255]`; the bytes past `n` are kept as they are.
pub open spec fn posterized_samples(s: Seq<u8>, n: int, buckets: int) -> Seq<u8> {
    Seq::new(
        s.len(),
        |i: int|
            if i < n {
                posterized(s[i] as int, buckets, 255) as u8
            } else {
                s[i]
            },
    )
}

/// Number of channel bytes that the pixels of `img` cover.
pub open spec fn pixel_samples(img: Rgba8Image) -> int {
    4 * width_of(img) * height_of(img)
}

/// Posterizes every channel (alpha included) of every pixel of `img` to
/// `level` evenly spaced values, and returns the result as a new image.
/// `img` itself is left as it is.
pub fn posterize_img_rgba8(img: &Rgba8Image, level: u8) -> (r: Result<Rgba8Image, PosterizeError>)
    ensures
        level < 2 <==> r is Err,
        r is Err ==> r->Err_0 == PosterizeError(PosterizeErrorType::MinimumLevel),
        r matches Ok(out) ==> {
            &&& width_of(out) == width_of(*img)
            &&& height_of(out) == height_of(*img)
            &&& samples_of(out) == posterized_samples(
                samples_of(*img),
                pixel_samples(*img),
                level - 1,
            )
        },
{
    if level < 2 {
        return Err(PosterizeError(PosterizeErrorType::MinimumLevel));
    }
    let raw = raw_samples(img);
    let w = buffer_width(img);
    let h = buffer_height(img);
    let len = raw.len();
    assert(w * h <= 4 * w * h <= len) by (nonlinear_arith)
        requires
            4 * w * h <= len,
    ;
    let wh: usize = (w as usize) * (h as usize);
    assert(wh * 4 <= len) by (nonlinear_arith)
        requires
            wh == w * h,
            4 * w * h <= len,
    ;
    let n: usize = wh * 4;
    assert(n == pixel_samples(*img)) by (nonlinear_arith)
        requires
            n == wh * 4,
            wh == w * h,
            w == width_of(*img),
            h == height_of(*img),
    ;
    let mut out = copy_buffer(img);
    for i in 0..n
        invariant
            level >= 2,
            n <= raw@.len(),
            raw@ == samples_of(*img),
            width_of(out) == width_of(*img),
            height_of(out) == height_of(*img),
            samples_of(out) == Seq::new(
                raw@.len(),
                |k: int|
                    if k < i {
                        posterized(raw@[k] as int, level - 1, 255) as u8
                    } else {
                        raw@[k]
                    },
            ),
    {
        let q = posterize(raw[i], level - 1, 255);
        set_sample(&mut out, i, q);
        assert(samples_of(out) =~= Seq::new(
            raw@.len(),
            |k: int|
                if k < i + 1 {
                    posterized(raw@[k] as int, level - 1, 255) as u8
                } else {
                    raw@[k]
                },
        ));
    }
    assert(samples_of(out) =~= posterized_samples(samples_of(*img), pixel_samples(*img), level - 1));
    Ok(out)
}

/// Posterizing an image a second time with the same level gives back the
/// bytes of the first result: the dimensions are kept, and every posterized
/// byte is already one of the representative values.
pub proof fn lemma_posterize_image_idempotent(s: Seq<u8>, n: int, level: u8)
    requires
        level >= 2,
    ensures
        posterized_samples(posterized_samples(s, n, level - 1), n, level - 1)
            == posterized_samples(s, n, level - 1),
{
    let once = posterized_samples(s, n, level - 1);
    assert forall|i: int| 0 <= i < s.len() implies #[trigger] posterized_samples(once, n, level - 1)[i]
        == once[i] by {
        if i < n {
            lemma_posterized_first_nearest(s[i] as int, level - 1, 255);
            lemma_posterize_idempotent(s[i] as int, level - 1, 255);
        }
    }
    assert(posterized_samples(once, n, level - 1) =~= once);
}

/// Two images with the same bytes and dimensions are posterized to the same
/// bytes.
pub proof fn lemma_posterize_image_deterministic(a: Rgba8Image, b: Rgba8Image, level: u8)
    requires
        samples_of(a) == samples_of(b),
        width_of(a) == width_of(b),
        height_of(a) == height_of(b),
    ensures
        posterized_samples(samples_of(a), pixel_samples(a), level - 1) == posterized_samples(
            samples_of(b),
            pixel_samples(b),
            level - 1,
        ),
{
}

} // verus!
