use image::{ColorType, DynamicImage};
use trustmark_imaging::geometry::{center_crop, shrunk_size, Crop};
use trustmark_imaging::model::center_crop_size_and_offset;
use trustmark_imaging::variant::Variant;

#[test]
fn normal_image() {
    let image = DynamicImage::new(100, 110, ColorType::L8);
    assert_eq!(
        center_crop_size_and_offset(Variant::Q, &image),
        (100, 110, 0, 0)
    );
}

#[test]
fn skinny_image() {
    let image = DynamicImage::new(10, 100, ColorType::L8);
    assert_eq!(
        center_crop_size_and_offset(Variant::Q, &image),
        (10, 10, 0, 45)
    );
}

#[test]
fn wide_image() {
    let image = DynamicImage::new(101, 10, ColorType::L8);
    assert_eq!(
        center_crop_size_and_offset(Variant::Q, &image),
        (10, 10, 45, 0)
    );
}

#[test]
fn always_crop_p() {
    let image = DynamicImage::new(100, 110, ColorType::L8);
    assert_eq!(
        center_crop_size_and_offset(Variant::P, &image),
        (100, 100, 0, 5)
    );
}

#[test]
fn twice_as_long_is_not_cropped() {
    let whole = |width, height| Crop { width, height, xpos: 0, ypos: 0 };
    assert_eq!(center_crop(Variant::Q, 50, 100), whole(50, 100));
    assert_eq!(center_crop(Variant::Q, 100, 50), whole(100, 50));
    assert_eq!(
        center_crop(Variant::Q, 50, 101),
        Crop { width: 50, height: 50, xpos: 0, ypos: 25 }
    );
    assert_eq!(
        center_crop(Variant::Q, 101, 50),
        Crop { width: 50, height: 50, xpos: 25, ypos: 0 }
    );
}

#[test]
fn crops_of_extreme_sizes() {
    assert_eq!(
        center_crop(Variant::Q, 0, 0),
        Crop { width: 0, height: 0, xpos: 0, ypos: 0 }
    );
    assert_eq!(
        center_crop(Variant::Q, 0, 7),
        Crop { width: 0, height: 0, xpos: 0, ypos: 3 }
    );
    assert_eq!(
        center_crop(Variant::Q, u32::MAX, 1),
        Crop { width: 1, height: 1, xpos: 2147483647, ypos: 0 }
    );
    assert_eq!(
        center_crop(Variant::Q, u32::MAX, u32::MAX),
        Crop { width: u32::MAX, height: u32::MAX, xpos: 0, ypos: 0 }
    );
}

#[test]
fn crops_are_centered_transposable_and_final() {
    for variant in [Variant::P, Variant::Q] {
        for width in 0..40 {
            for height in 0..40 {
                let c = center_crop(variant, width, height);
                assert!(c.xpos + c.width <= width && c.ypos + c.height <= height);
                if variant == Variant::P {
                    assert_eq!(c.width, c.height);
                }
                let right = width - c.width - c.xpos;
                let below = height - c.height - c.ypos;
                assert!(right - c.xpos <= 1 && below - c.ypos <= 1);
                let t = center_crop(variant, height, width);
                assert_eq!((t.width, t.height, t.xpos, t.ypos), (c.height, c.width, c.ypos, c.xpos));
                let again = center_crop(variant, c.width, c.height);
                assert_eq!(again, Crop { width: c.width, height: c.height, xpos: 0, ypos: 0 });
            }
        }
    }
}

#[test]
fn residuals_shrink_only_where_they_are_larger() {
    assert_eq!(shrunk_size(23, 17, 11, 9), None);
    assert_eq!(shrunk_size(23, 17, 23, 17), None);
    assert_eq!(shrunk_size(23, 17, 47, 31), Some((23, 17)));
    assert_eq!(shrunk_size(23, 17, 47, 11), Some((23, 11)));
    assert_eq!(shrunk_size(23, 17, 11, 31), Some((11, 17)));
    assert_eq!(shrunk_size(23, 17, 23, 11), None);
}
