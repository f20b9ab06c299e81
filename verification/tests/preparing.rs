use image::{
    ColorType, DynamicImage, GenericImageView as _, GrayImage, Rgb, Rgb32FImage, RgbImage,
};
use trustmark_imaging::error::Error;
use trustmark_imaging::geometry::Crop;
use trustmark_imaging::model::{resize_img, ModelImage};
use trustmark_imaging::variant::Variant;

const COLORS: [ColorType; 10] = [
    ColorType::L8,
    ColorType::La8,
    ColorType::Rgb8,
    ColorType::Rgba8,
    ColorType::L16,
    ColorType::La16,
    ColorType::Rgb16,
    ColorType::Rgba16,
    ColorType::Rgb32F,
    ColorType::Rgba32F,
];

fn numbered(width: u32, height: u32) -> RgbImage {
    let mut image = RgbImage::new(width, height);
    for (x, y, pixel) in image.enumerate_pixels_mut() {
        *pixel = Rgb([x as u8, y as u8, 7]);
    }
    image
}

#[test]
fn resizing_keeps_the_pixel_format() {
    for color in COLORS {
        let image = DynamicImage::new(9, 6, color);
        let crop = Crop { width: 5, height: 4, xpos: 1, ypos: 2 };
        let resized = resize_img(&image, 12, 3, crop).unwrap();
        assert_eq!(resized.color(), color);
        assert_eq!(resized.dimensions(), (12, 3));
    }
}

#[test]
fn resizing_to_the_same_size_copies_the_crop() {
    let image = DynamicImage::ImageRgb8(numbered(9, 6));
    let crop = Crop { width: 5, height: 4, xpos: 1, ypos: 2 };
    let resized = resize_img(&image, 5, 4, crop).unwrap();
    assert_eq!(resized, image.crop_imm(1, 2, 5, 4));
}

#[test]
fn resizing_scales_a_constant_crop_to_itself() {
    let mut gray = GrayImage::new(8, 8);
    for y in 2..6 {
        for x in 2..6 {
            gray.get_pixel_mut(x, y).0[0] = 200;
        }
    }
    let crop = Crop { width: 2, height: 2, xpos: 3, ypos: 3 };
    let resized = resize_img(&DynamicImage::ImageLuma8(gray), 4, 4, crop).unwrap();
    assert_eq!(resized.into_luma8().into_raw(), [200; 16]);
}

#[test]
fn resizing_nothing_gives_zero_samples() {
    let image = DynamicImage::ImageRgb8(numbered(9, 6));
    let crop = Crop { width: 0, height: 4, xpos: 100, ypos: 2 };
    let resized = resize_img(&image, 2, 2, crop).unwrap();
    assert_eq!(resized, DynamicImage::new(2, 2, ColorType::Rgb8));
    let crop = Crop { width: 5, height: 4, xpos: 100, ypos: 2 };
    assert_eq!(resize_img(&image, 0, 2, crop).unwrap().dimensions(), (0, 2));
}

#[test]
fn crops_outside_the_image_are_refused() {
    let image = DynamicImage::ImageRgb8(numbered(9, 6));
    for crop in [
        Crop { width: 5, height: 4, xpos: 5, ypos: 2 },
        Crop { width: 5, height: 4, xpos: 1, ypos: 3 },
        Crop { width: 1, height: 1, xpos: 9, ypos: 0 },
        Crop { width: u32::MAX, height: 1, xpos: u32::MAX, ypos: 0 },
    ] {
        assert!(matches!(resize_img(&image, 3, 3, crop), Err(Error::Resize(_))));
    }
}

#[test]
fn the_model_sees_the_center() {
    let image = DynamicImage::ImageRgb8(numbered(31, 10));
    let prepared = ModelImage(10, Variant::Q, image.clone()).prepared().unwrap();
    assert_eq!(
        prepared,
        DynamicImage::ImageRgb32F(image.crop_imm(10, 0, 10, 10).into_rgb32f())
    );
    assert_eq!(prepared.get_pixel(0, 0).0[0], 10);
}

#[test]
fn the_model_sees_a_square_of_its_size() {
    for color in COLORS {
        for (width, height) in [(40, 30), (3, 90), (1, 1), (0, 4), (0, 0)] {
            for variant in [Variant::P, Variant::Q] {
                let image = DynamicImage::new(width, height, color);
                let prepared = ModelImage(16, variant, image).prepared().unwrap();
                assert_eq!(prepared.dimensions(), (16, 16));
                assert_eq!(prepared.color(), ColorType::Rgb32F);
            }
        }
    }
}

#[test]
fn preparing_twice_changes_nothing() {
    let image = DynamicImage::ImageRgb8(numbered(40, 30));
    let once = ModelImage(16, Variant::Q, image).prepared().unwrap();
    let twice = ModelImage(16, Variant::Q, once.clone()).prepared().unwrap();
    assert_eq!(once, twice);
}

#[test]
fn a_fitting_picture_is_prepared_as_it_is() {
    let image = DynamicImage::ImageRgb32F(DynamicImage::ImageRgb8(numbered(8, 8)).to_rgb32f());
    for variant in [Variant::P, Variant::Q] {
        let prepared = ModelImage(8, variant, image.clone()).prepared().unwrap();
        assert_eq!(prepared, image);
    }
}

#[test]
fn pictures_without_rows_are_prepared() {
    let image = DynamicImage::new(1 << 20, 0, ColorType::L8);
    let prepared = ModelImage(2, Variant::Q, image).try_prepared().unwrap().unwrap();
    assert_eq!(prepared, DynamicImage::ImageRgb32F(Rgb32FImage::new(2, 2)));
}

#[test]
fn preparing_refuses_what_memory_cannot_hold() {
    let image = DynamicImage::new(2, 2, ColorType::L8);
    assert!(ModelImage(u32::MAX, Variant::Q, image).try_prepared().is_none());
    let image = DynamicImage::new(2, 2, ColorType::L8);
    let prepared = ModelImage(2, Variant::Q, image).try_prepared().unwrap().unwrap();
    assert_eq!(prepared, DynamicImage::ImageRgb32F(Rgb32FImage::new(2, 2)));
}

#[test]
fn errors_are_wrapped() {
    let shape = ndarray::ShapeError::from_kind(ndarray::ErrorKind::OutOfBounds);
    assert!(matches!(Error::from(shape.clone()), Error::Shape(e) if e == shape));
    let resize = fast_image_resize::ResizeError::PixelTypesAreDifferent;
    assert!(matches!(Error::from(resize), Error::Resize(e) if e == resize));
    let ort = ort::Error::new("no session");
    assert!(matches!(Error::from(ort), Error::Ort(_)));
}
