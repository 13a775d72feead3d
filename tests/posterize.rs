use image::{ImageBuffer, Rgba};
use posterize::{posterize, posterize_img_rgba8, PosterizeErrorType, Rgba8Image};

fn image_from(width: u32, height: u32, samples: Vec<u8>) -> Rgba8Image {
    Rgba8Image(ImageBuffer::from_raw(width, height, samples).unwrap())
}

#[test]
fn test_posterize() {
    assert_eq!(posterize(128, 1, u8::MAX), u8::MAX)
}

#[test]
fn test_posterize_img_rgba8() {
    let mut img: ImageBuffer<Rgba<u8>, Vec<u8>> = ImageBuffer::new(1, 1);
    img.get_pixel_mut(0, 0).0[0] = 128;
    let mut expectation: ImageBuffer<Rgba<u8>, Vec<u8>> = ImageBuffer::new(1, 1);
    expectation.get_pixel_mut(0, 0).0[0] = 255;
    let result = posterize_img_rgba8(&Rgba8Image(img), 2).unwrap();
    assert_eq!(result.0, expectation);
}

#[test]
fn single_bucket_splits_at_midpoint() {
    for v in 0..=255u8 {
        let expected = if v >= 128 { 255 } else { 0 };
        assert_eq!(posterize(v, 1, 255), expected);
    }
}

#[test]
fn zero_is_kept_for_every_bucket_count() {
    for b in 1..=255u8 {
        assert_eq!(posterize(0, b, 255), 0);
    }
}

#[test]
fn max_is_kept_when_buckets_divide_it() {
    for b in [1u8, 3, 5, 15, 17, 51, 85, 255] {
        assert_eq!(posterize(255, b, 255), 255);
    }
}

#[test]
fn max_is_lost_when_bucket_width_truncates() {
    assert_eq!(posterize(255, 2, 255), 254);
}

#[test]
fn nearest_value_is_chosen() {
    assert_eq!(posterize(100, 3, 255), 85);
    assert_eq!(posterize(200, 4, 255), 189);
    assert_eq!(posterize(64, 2, 255), 127);
}

#[test]
fn ties_go_to_the_first_candidate_visited() {
    assert_eq!(posterize(1, 2, 4), 2);
    assert_eq!(posterize(3, 2, 4), 2);
}

#[test]
fn value_above_max_falls_back_to_zero() {
    assert_eq!(posterize(200, 1, 100), 0);
}

#[test]
fn level_below_two_is_refused() {
    for level in [0u8, 1] {
        let empty = image_from(0, 0, Vec::new());
        let err = posterize_img_rgba8(&empty, level).unwrap_err();
        assert_eq!(err.kind(), PosterizeErrorType::MinimumLevel);
        let small = image_from(2, 2, vec![7; 16]);
        let err = posterize_img_rgba8(&small, level).unwrap_err();
        assert_eq!(err.kind(), PosterizeErrorType::MinimumLevel);
        assert_eq!(err.description(), "expected level higher than or equal to 2");
    }
}

#[test]
fn dimensions_are_kept() {
    let img = image_from(3, 2, (0..24).map(|i| (i * 10) as u8).collect());
    let out = posterize_img_rgba8(&img, 4).unwrap();
    assert_eq!(out.0.width(), 3);
    assert_eq!(out.0.height(), 2);
}

#[test]
fn input_is_not_changed() {
    let img = image_from(2, 1, vec![1, 60, 128, 250, 33, 99, 180, 255]);
    let before = img.0.clone();
    let out = posterize_img_rgba8(&img, 3).unwrap();
    assert_eq!(img.0, before);
    assert_eq!(out.0.as_raw(), &vec![0, 0, 127, 254, 0, 127, 127, 254]);
}

#[test]
fn posterizing_twice_changes_nothing_more() {
    let samples: Vec<u8> = (0..=255u8).collect();
    let img = image_from(8, 8, samples);
    for level in 2..=9u8 {
        let once = posterize_img_rgba8(&img, level).unwrap();
        let twice = posterize_img_rgba8(&once, level).unwrap();
        assert_eq!(once.0, twice.0);
    }
}

#[test]
fn repeated_calls_agree() {
    let img = image_from(2, 2, vec![5, 90, 160, 240, 12, 77, 133, 201, 0, 255, 64, 192, 31, 63, 127, 191]);
    let a = posterize_img_rgba8(&img, 5).unwrap();
    let b = posterize_img_rgba8(&img, 5).unwrap();
    assert_eq!(a.0.as_raw(), b.0.as_raw());
}

#[test]
fn one_pixel_scenario() {
    let img = image_from(1, 1, vec![128, 0, 0, 0]);
    let out = posterize_img_rgba8(&img, 2).unwrap();
    assert_eq!(out.0.as_raw(), &vec![255, 0, 0, 0]);
}

#[test]
fn bytes_past_the_pixels_are_kept() {
    let img = image_from(1, 1, vec![128, 200, 10, 250, 128, 128]);
    let out = posterize_img_rgba8(&img, 2).unwrap();
    assert_eq!(out.0.as_raw(), &vec![255, 255, 0, 255, 128, 128]);
}
