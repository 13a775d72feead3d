//! Per-channel posterization of RGBA images: every channel value is moved to
//! the nearest of a few evenly spaced representative values.

mod buffer;
mod error;
mod levels;
mod transform;

pub use error::{PosterizeError, PosterizeErrorType};
pub use levels::{
    best_distance, bucket_candidate, distance, is_first_nearest, lemma_first_nearest_unique,
    lemma_posterize_fixes_max, lemma_posterize_fixes_zero, lemma_posterize_idempotent,
    lemma_posterized_first_nearest, lemma_single_bucket, posterize, posterized, scan_best,
};
pub use buffer::{height_of, samples_of, width_of, Rgba8Image};
pub use transform::{
    lemma_posterize_image_deterministic, lemma_posterize_image_idempotent, pixel_samples,
    posterize_img_rgba8, posterized_samples,
};
