use image::imageops::{self, FilterType};
use image::{
    DynamicImage, GenericImageView as _, ImageBuffer, Luma, LumaA, Pixel as _, Rgb, Rgb32FImage,
    Rgba, Rgba32FImage,
};
use trustmark_imaging::model::{fit_residual, try_fit_residual};
use trustmark_imaging::residual::{
    apply_residual_in_place, blend_byte, blend_real, blend_word, for_each_interpolated_residual,
    FloatImage, Grid, Layout, Picture, Samples,
};

/// The residual in the form in which it is applied to a `width` by `height` picture.
fn fitted(residual: DynamicImage, width: u32, height: u32) -> FloatImage<f32> {
    let image = fit_residual(residual, width, height);
    let (width, height) = image.dimensions();
    FloatImage {
        width,
        height,
        channels: 4,
        samples: image.into_rgba32f().into_raw(),
    }
}

fn apply(input: Rgba32FImage, residual: DynamicImage) -> Rgba32FImage {
    let (width, height) = input.dimensions();
    let residual = fitted(residual, width, height);
    let grid = Grid { width, height, layout: Layout::Rgba };
    let mut picture = Picture { grid, samples: Samples::Real(input.into_raw()) };
    apply_residual_in_place(&mut picture, &residual);
    assert_eq!(picture.grid, grid);
    match picture.samples {
        Samples::Real(samples) => Rgba32FImage::from_raw(width, height, samples).unwrap(),
        _ => unreachable!(),
    }
}

fn apply_residual_reference(input: DynamicImage, residual: DynamicImage) -> DynamicImage {
    let has_alpha = input.color().has_alpha();
    let (w, h) = input.dimensions();

    let applied = {
        let input = input.clone().into_rgba32f();
        let mut target = input.clone();

        let residual = residual.resize_exact(w, h, FilterType::Triangle);
        let residual = residual.into_rgba32f();

        for ((target, residual), original) in target
            .pixels_mut()
            .zip(residual.pixels())
            .zip(input.pixels())
        {
            target.apply2(residual, |x, y| {
                let x = x * 2. - 1.;
                let y = y * 2. - 1.;

                (f32::min(x + y, 1.0) + 1.) / 2.
            });
            target[3] = original[3];
        }

        target
    };

    if has_alpha {
        let mut input = input.into_rgba32f();
        imageops::replace(&mut input, &applied, 0, 0);
        input.into()
    } else {
        let mut input = input.into_rgb32f();
        let applied = DynamicImage::ImageRgba32F(applied).into_rgb32f();
        imageops::replace(&mut input, &applied, 0, 0);
        input.into()
    }
}

fn apply_residual_reference_with_min_resize(
    input: DynamicImage,
    residual: DynamicImage,
) -> DynamicImage {
    let (w, h) = input.dimensions();
    let (rw, rh) = residual.dimensions();
    let residual = if rw > w || rh > h {
        residual.resize_exact(rw.min(w), rh.min(h), FilterType::Triangle)
    } else {
        residual
    };
    apply_residual_reference(input, residual)
}

fn gradient_input() -> Rgba32FImage {
    let mut input = Rgba32FImage::new(23, 17);
    for (x, y, pixel) in input.enumerate_pixels_mut() {
        let xf = x as f32 / 23.0;
        let yf = y as f32 / 17.0;
        *pixel = Rgba([xf, yf, (xf + yf) / 2.0, 1.0 - (xf * yf * 0.5)]);
    }
    input
}

fn gradient_residual(width: u32, height: u32) -> Rgb32FImage {
    let mut residual = Rgb32FImage::new(width, height);
    for (x, y, pixel) in residual.enumerate_pixels_mut() {
        let xf = x as f32 / width as f32;
        let yf = y as f32 / height as f32;
        *pixel = Rgb([0.2 + (xf * 0.4), 0.3 + (yf * 0.2), 0.1 + ((xf + yf) * 0.2)]);
    }
    residual
}

#[test]
fn apply_residual_in_place_matches_reference() {
    let input = gradient_input();
    let residual = DynamicImage::ImageRgb32F(gradient_residual(11, 9));

    let expected =
        apply_residual_reference(DynamicImage::ImageRgba32F(input.clone()), residual.clone())
            .into_rgba32f();
    let actual_in_place = apply(input, residual);

    for (actual, expected) in actual_in_place.pixels().zip(expected.pixels()) {
        for c in 0..4 {
            assert!((actual[c] - expected[c]).abs() <= f32::EPSILON);
        }
    }
}

#[test]
fn apply_residual_in_place_matches_reference_with_larger_residual() {
    let input = gradient_input();
    let residual = DynamicImage::ImageRgb32F(gradient_residual(47, 31));

    let expected =
        apply_residual_reference(DynamicImage::ImageRgba32F(input.clone()), residual.clone())
            .into_rgba32f();
    let actual_in_place = apply(input, residual);

    for (actual, expected) in actual_in_place.pixels().zip(expected.pixels()) {
        for c in 0..4 {
            assert!((actual[c] - expected[c]).abs() <= f32::EPSILON);
        }
    }
}

#[test]
fn apply_residual_in_place_matches_reference_with_mixed_residual_dims() {
    let input = gradient_input();
    // Wider than input, but shorter than input.
    let residual = DynamicImage::ImageRgb32F(gradient_residual(47, 11));

    let expected = apply_residual_reference_with_min_resize(
        DynamicImage::ImageRgba32F(input.clone()),
        residual.clone(),
    )
    .into_rgba32f();
    let actual_in_place = apply(input, residual);

    for (actual, expected) in actual_in_place.pixels().zip(expected.pixels()) {
        for c in 0..4 {
            assert!((actual[c] - expected[c]).abs() <= f32::EPSILON);
        }
    }
}

/// The residual at every pixel of a `width` by `height` picture, computed directly.
fn interpolate_directly(width: u32, height: u32, residual: &FloatImage<f32>) -> Vec<[f32; 4]> {
    let (rw, rh) = (residual.width, residual.height);
    let pixel = |x: u32, y: u32, c: usize| residual.samples[(y * rw + x) as usize * 4 + c];
    let x_scale = rw as f32 / width as f32;
    let y_scale = rh as f32 / height as f32;
    let mut values = Vec::new();
    let mut src_y = (0.5 * y_scale) - 0.5;
    for _ in 0..height {
        let y_held = src_y.clamp(0.0, (rh - 1) as f32);
        let mut src_x = (0.5 * x_scale) - 0.5;
        for _ in 0..width {
            let x_held = src_x.clamp(0.0, (rw - 1) as f32);
            let (x0f, y0f) = (x_held.floor(), y_held.floor());
            let (wx, wy) = (x_held - x0f, y_held - y0f);
            let (x0, y0) = (x0f as u32, y0f as u32);
            let x1 = (x0 + 1).min(rw - 1);
            let y1 = (y0 + 1).min(rh - 1);
            let mut interpolated = [0.0; 4];
            for c in 0..4 {
                let top = (pixel(x0, y0, c) * (1.0 - wx)) + (pixel(x1, y0, c) * wx);
                let bottom = (pixel(x0, y1, c) * (1.0 - wx)) + (pixel(x1, y1, c) * wx);
                interpolated[c] = ((top * (1.0 - wy)) + (bottom * wy)) * 2. - 1.;
            }
            values.push(interpolated);
            src_x += x_scale;
        }
        src_y += y_scale;
    }
    values
}

const LAYOUTS: [(Layout, usize, usize); 4] = [
    (Layout::Luma, 1, 1),
    (Layout::LumaAlpha, 2, 1),
    (Layout::Rgb, 3, 3),
    (Layout::Rgba, 4, 3),
];

#[test]
fn every_format_is_shifted_exactly() {
    let (width, height) = (37, 29);
    for (rw, rh) in [(1, 1), (5, 3), (37, 29), (36, 2), (1, 29)] {
        let residual = fitted(DynamicImage::ImageRgb32F(gradient_residual(rw, rh)), width, height);
        let values = interpolate_directly(width, height, &residual);
        for (layout, channels, colors) in LAYOUTS {
            assert_eq!((layout.channels(), layout.colors()), (channels, colors));
            let grid = Grid { width, height, layout };
            let len = 37 * 29 * channels;

            let bytes: Vec<u8> = (0..len).map(|i| (i * 37 % 256) as u8).collect();
            let mut expected = bytes.clone();
            for (i, v) in values.iter().enumerate() {
                for c in 0..colors {
                    let s = &mut expected[i * channels + c];
                    let base = (*s as f32 / u8::MAX as f32) * 2. - 1.;
                    let output = (f32::min(base + v[c], 1.0) + 1.) / 2.;
                    *s = (output * u8::MAX as f32) as u8;
                }
            }
            let mut picture: Picture<f32> = Picture { grid, samples: Samples::Byte(bytes) };
            apply_residual_in_place(&mut picture, &residual);
            match picture.samples {
                Samples::Byte(actual) => assert_eq!(actual, expected),
                _ => unreachable!(),
            }

            let words: Vec<u16> = (0..len).map(|i| (i * 7919 % 65536) as u16).collect();
            let mut expected = words.clone();
            for (i, v) in values.iter().enumerate() {
                for c in 0..colors {
                    let s = &mut expected[i * channels + c];
                    let base = (*s as f32 / u16::MAX as f32) * 2. - 1.;
                    let output = (f32::min(base + v[c], 1.0) + 1.) / 2.;
                    *s = (output * u16::MAX as f32) as u16;
                }
            }
            let mut picture: Picture<f32> = Picture { grid, samples: Samples::Word(words) };
            apply_residual_in_place(&mut picture, &residual);
            match picture.samples {
                Samples::Word(actual) => assert_eq!(actual, expected),
                _ => unreachable!(),
            }

            let reals: Vec<f32> = (0..len).map(|i| (i * 31 % 97) as f32 / 96.0).collect();
            let mut expected = reals.clone();
            for (i, v) in values.iter().enumerate() {
                for c in 0..colors {
                    let s = &mut expected[i * channels + c];
                    let base = *s * 2. - 1.;
                    *s = (f32::min(base + v[c], 1.0) + 1.) / 2.;
                }
            }
            let mut picture = Picture { grid, samples: Samples::Real(reals) };
            apply_residual_in_place(&mut picture, &residual);
            match picture.samples {
                Samples::Real(actual) => assert_eq!(actual, expected),
                _ => unreachable!(),
            }
        }
    }
}

#[test]
fn opacity_and_trailing_samples_are_kept() {
    let grid = Grid { width: 2, height: 1, layout: Layout::LumaAlpha };
    let residual = FloatImage { width: 1, height: 1, channels: 4, samples: vec![0.75f32; 4] };
    let mut picture = Picture { grid, samples: Samples::Byte(vec![0, 9, 255, 8, 77]) };
    apply_residual_in_place(&mut picture, &residual);
    match picture.samples {
        // The residual is 0.5, which shifts the brightness by a quarter of its range.
        Samples::Byte(samples) => assert_eq!(samples, [63, 9, 255, 8, 77]),
        _ => unreachable!(),
    }
}

#[test]
fn empty_pictures_need_no_residual() {
    let grid = Grid { width: 0, height: 3, layout: Layout::Rgb };
    let residual: FloatImage<f32> =
        FloatImage { width: 0, height: 0, channels: 4, samples: vec![] };
    let mut picture = Picture { grid, samples: Samples::Word(vec![5]) };
    apply_residual_in_place(&mut picture, &residual);
    match picture.samples {
        Samples::Word(samples) => assert_eq!(samples, [5]),
        _ => unreachable!(),
    }
}

#[test]
fn blends_cap_at_the_top_and_saturate_at_the_bottom() {
    assert_eq!(blend_real(0.5f32, 0.0), 0.5);
    assert_eq!(blend_real(0.5f32, 0.5), 0.75);
    assert_eq!(blend_real(0.5f32, 3.0), 1.0);
    assert_eq!(blend_real(0.5f32, -1.5), -0.25);
    assert_eq!(blend_byte(255, 0.5f32), 255);
    assert_eq!(blend_byte(0, -0.5f32), 0);
    assert_eq!(blend_byte(0, 1.0f32), 127);
    assert_eq!(blend_word(65535, 0.5f32), 65535);
    assert_eq!(blend_word(0, -0.5f32), 0);
    assert_eq!(blend_word(0, 1.0f32), 32767);
    assert_eq!(blend_byte(7, f32::NAN), 255);
}

#[test]
fn any_function_can_be_spread_over_the_pixels() {
    let grid = Grid { width: 4, height: 1, layout: Layout::Luma };
    let residual = FloatImage { width: 2, height: 1, channels: 1, samples: vec![0.5f32, 1.0] };
    let mut samples = vec![10.0f32, 20.0, 30.0, 40.0];
    for_each_interpolated_residual(&mut samples, grid, &residual, |s: f32, v: f32| s + v);
    // The centres fall at -0.25, 0.25, 0.75 and 1.25 between the two residual pixels.
    assert_eq!(samples, [10.0, 20.25, 30.75, 41.0]);
}

#[test]
fn fitted_residuals_have_four_real_samples() {
    let residual = DynamicImage::ImageLuma8(
        ImageBuffer::<Luma<u8>, Vec<u8>>::from_raw(2, 1, vec![0, 255]).unwrap(),
    );
    let image = fit_residual(residual, 10, 10);
    assert_eq!(
        image,
        DynamicImage::ImageRgba32F(
            Rgba32FImage::from_raw(2, 1, vec![0., 0., 0., 1., 1., 1., 1., 1.]).unwrap()
        )
    );
    let residual = DynamicImage::ImageRgb32F(gradient_residual(6, 4));
    let expected = residual.to_rgba32f();
    assert_eq!(
        try_fit_residual(residual.clone(), 6, 4),
        Some(DynamicImage::ImageRgba32F(expected.clone()))
    );
    let shrunk = DynamicImage::ImageRgba32F(expected).resize_exact(3, 4, FilterType::Triangle);
    assert_eq!(fit_residual(residual.clone(), 3, 9), shrunk);
    assert_eq!(try_fit_residual(residual, 3, 9), Some(shrunk));
    let alpha = DynamicImage::ImageLumaA16(
        ImageBuffer::<LumaA<u16>, Vec<u16>>::from_raw(1, 1, vec![65535, 0]).unwrap(),
    );
    assert_eq!(
        fit_residual(alpha, 1, 1).into_rgba32f().into_raw(),
        [1., 1., 1., 0.]
    );
}

#[test]
fn applying_twice_from_the_same_picture_gives_the_same() {
    let residual = DynamicImage::ImageRgb32F(gradient_residual(11, 9));
    let once = apply(gradient_input(), residual.clone());
    let again = apply(gradient_input(), residual);
    assert_eq!(once, again);
}

#[test]
fn fitting_twice_changes_nothing() {
    for (width, height) in [(23, 17), (47, 9), (60, 40)] {
        let residual = DynamicImage::ImageRgb32F(gradient_residual(47, 31));
        let once = fit_residual(residual, width, height);
        assert_eq!(fit_residual(once.clone(), width, height), once);
    }
}

#[test]
fn only_the_colors_of_a_residual_matter() {
    let residual = fitted(DynamicImage::ImageRgb32F(gradient_residual(5, 3)), 12, 9);
    for (layout, channels, colors) in LAYOUTS {
        let mut other = FloatImage {
            width: residual.width,
            height: residual.height,
            channels: 4,
            samples: residual.samples.clone(),
        };
        for (i, s) in other.samples.iter_mut().enumerate() {
            if i % 4 >= colors {
                *s = 123.0;
            }
        }
        let grid = Grid { width: 12, height: 9, layout };
        let samples = vec![0.25f32; 12 * 9 * channels];
        let mut a = Picture { grid, samples: Samples::Real(samples.clone()) };
        let mut b = Picture { grid, samples: Samples::Real(samples) };
        apply_residual_in_place(&mut a, &residual);
        apply_residual_in_place(&mut b, &other);
        match (a.samples, b.samples) {
            (Samples::Real(a), Samples::Real(b)) => assert_eq!(a, b),
            _ => unreachable!(),
        }
    }
}

#[test]
fn brighter_pictures_and_residuals_stay_brighter() {
    let darker = fitted(DynamicImage::ImageRgb32F(gradient_residual(5, 3)), 12, 9);
    let mut brighter = fitted(DynamicImage::ImageRgb32F(gradient_residual(5, 3)), 12, 9);
    for (i, s) in brighter.samples.iter_mut().enumerate() {
        *s += (i % 7) as f32 / 50.0;
    }
    let grid = Grid { width: 12, height: 9, layout: Layout::Rgb };
    let low: Vec<u8> = (0..12 * 9 * 3).map(|i| (i * 31 % 200) as u8).collect();
    let high: Vec<u8> = low.iter().map(|s| s + s % 5).collect();
    let mut a: Picture<f32> = Picture { grid, samples: Samples::Byte(low) };
    let mut b: Picture<f32> = Picture { grid, samples: Samples::Byte(high) };
    apply_residual_in_place(&mut a, &darker);
    apply_residual_in_place(&mut b, &brighter);
    match (a.samples, b.samples) {
        (Samples::Byte(a), Samples::Byte(b)) => {
            assert!(a.iter().zip(&b).all(|(a, b)| a <= b));
            assert_ne!(a, b);
        }
        _ => unreachable!(),
    }
}

#[test]
fn what_is_not_a_number_leaves_no_trace() {
    let other = f32::from_bits(f32::NAN.to_bits() ^ 5);
    assert!(other.is_nan());
    let grid = Grid { width: 3, height: 2, layout: Layout::Rgb };
    for value in [f32::NAN, other] {
        let residual = FloatImage { width: 2, height: 2, channels: 4, samples: vec![value; 16] };
        let mut picture = Picture { grid, samples: Samples::Real(vec![0.3f32; 18]) };
        apply_residual_in_place(&mut picture, &residual);
        match picture.samples {
            Samples::Real(samples) => assert_eq!(samples, [1.0; 18]),
            _ => unreachable!(),
        }
    }
}
