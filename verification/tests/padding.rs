use ndarray::{Array4, Axis};
use trustmark_imaging::boundary::{long_side, remove_boundary_artifact};
use trustmark_imaging::tensor::Tensor;
use trustmark_imaging::variant::Variant;

fn tensor(array: Array4<f32>) -> Tensor<f32> {
    Tensor { shape: array.shape().to_vec(), data: array.iter().copied().collect() }
}

fn channel_means(array: &Array4<f32>) -> Vec<f32> {
    (0..3).map(|i| array.index_axis(Axis(1), i).mean().unwrap()).collect()
}

#[test]
fn remove_boundary_artifact_tall() {
    let residual: Array4<f32> = Array4::ones([1, 3, 256, 256]);
    let width = 256;
    let height = 298;

    let means = channel_means(&residual);
    let output =
        remove_boundary_artifact(&tensor(residual), (width, height), Variant::P, &means).unwrap();

    assert_eq!(output.shape, &[1, 3, 298, 256]);
}

fn numbered() -> Array4<f32> {
    let data: Vec<f32> = (0..3 * 256 * 256).map(|i| i as f32).collect();
    Array4::from_shape_vec([1, 3, 256, 256], data).unwrap()
}

/// The padded residual, one element at a time.
fn expected(residual: &Array4<f32>, means: &[f32], rows: usize, columns: usize) -> Vec<f32> {
    let top = (rows - 256) / 2;
    let left = (columns - 256) / 2;
    let mut data = Vec::new();
    for c in 0..3 {
        for y in 0..rows {
            for x in 0..columns {
                let kept = y >= top + 2 && y < top + 254 && x >= left + 2 && x < left + 254;
                data.push(if kept { residual[[0, c, y - top, x - left]] } else { means[c] });
            }
        }
    }
    data
}

#[test]
fn padding_surrounds_the_residual_with_means() {
    let residual = numbered();
    let means = vec![-1.0f32, -2.0, -3.0];
    for ((width, height), (rows, columns)) in [
        ((256, 298), (298, 256)),
        ((298, 256), (256, 298)),
        ((100, 100), (256, 256)),
        ((300, 100), (256, 768)),
        ((100, 300), (768, 256)),
        ((257, 256), (256, 257)),
    ] {
        let output =
            remove_boundary_artifact(&tensor(residual.clone()), (width, height), Variant::Q, &means)
                .unwrap();
        assert_eq!(output.shape, [1, 3, rows, columns]);
        assert_eq!(output.data, expected(&residual, &means, rows, columns));
    }
}

#[test]
fn long_sides_follow_the_aspect_ratio() {
    let mut state: u64 = 1;
    for _ in 0..500 {
        state = state.wrapping_mul(6364136223846793005).wrapping_add(1442695040888963407);
        let width = (state >> 40) as usize % 5000 + 1;
        let height = (state >> 20) as usize % 5000 + 1;
        let ratio = if width > height {
            width as f32 / height as f32
        } else {
            height as f32 / width as f32
        };
        assert_eq!(long_side::<f32>(width, height), (ratio * 256.0) as usize);
        assert_eq!(long_side::<f32>(height, width), long_side::<f32>(width, height));
    }
    assert_eq!(long_side::<f32>((1 << 40) + 65537, (1 << 39) + 65536), 512);
    assert_eq!(long_side::<f32>(3, 1), 768);
    assert_eq!(long_side::<f32>(5, 0), usize::MAX);
    assert_eq!(long_side::<f32>(0, 0), 0);
}

#[test]
fn images_without_pixels_have_no_padding() {
    let residual = tensor(numbered());
    let means = vec![0.0f32; 3];
    assert!(remove_boundary_artifact(&residual, (0, 0), Variant::Q, &means).is_none());
    assert!(remove_boundary_artifact(&residual, (9, 0), Variant::Q, &means).is_none());
}

#[test]
fn padding_depends_on_the_ratio_alone() {
    let residual = tensor(numbered());
    let means = vec![1.0f32, 2.0, 3.0];
    for k in [1usize, 2, 7, 1000] {
        for (width, height) in [(3, 2), (2, 3), (1, 1), (512, 300), (31, 97)] {
            let a = remove_boundary_artifact(&residual, (width, height), Variant::P, &means);
            let b = remove_boundary_artifact(&residual, (k * width, k * height), Variant::Q, &means);
            let (a, b) = (a.unwrap(), b.unwrap());
            assert_eq!(a.shape, b.shape);
            assert_eq!(a.data, b.data);
        }
    }
}

#[test]
fn padding_transposes_with_the_residual() {
    let residual = numbered();
    let mut transposed = residual.clone();
    transposed.swap_axes(2, 3);
    let means = vec![1.0f32, 2.0, 3.0];
    for (width, height) in [(300, 200), (200, 300), (400, 400)] {
        let a = remove_boundary_artifact(
            &tensor(residual.clone()),
            (width, height),
            Variant::Q,
            &means,
        )
        .unwrap();
        let b = remove_boundary_artifact(
            &tensor(transposed.clone()),
            (height, width),
            Variant::Q,
            &means,
        )
        .unwrap();
        let a = Array4::from_shape_vec([1, 3, a.shape[2], a.shape[3]], a.data).unwrap();
        let mut b = Array4::from_shape_vec([1, 3, b.shape[2], b.shape[3]], b.data).unwrap();
        b.swap_axes(2, 3);
        assert_eq!(a, b);
    }
}

#[test]
fn channels_do_not_mix() {
    let residual = numbered();
    let mut other = residual.clone();
    for y in 0..256 {
        for x in 0..256 {
            other[[0, 0, y, x]] = -5.0;
            other[[0, 2, y, x]] = (x * y) as f32;
        }
    }
    for size in [(300, 200), (200, 300)] {
        let a = channel_means(&residual);
        let b = channel_means(&other);
        let a = remove_boundary_artifact(&tensor(residual.clone()), size, Variant::P, &a).unwrap();
        let b = remove_boundary_artifact(&tensor(other.clone()), size, Variant::P, &b).unwrap();
        assert_eq!(a.shape, b.shape);
        let plane = a.shape[2] * a.shape[3];
        assert_eq!(a.data[plane..2 * plane], b.data[plane..2 * plane]);
        assert_ne!(a.data, b.data);
    }
}

#[test]
fn equal_sides_stay_square() {
    for side in [1usize, 2, 3, 255, 256, 1000, 16777217, (1 << 40) + 1] {
        assert_eq!(long_side::<f32>(side, side), 256);
    }
}
